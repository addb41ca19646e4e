use herdr_spreader::cli::{Cli, CliError, Command};

#[test]
fn should_parse_apply_subcommand_with_optional_config_file_argument() {
    let cli = Cli::try_parse_from(["herdr-spreader", "apply", "--file", "./spread.yml"]).unwrap();
    assert_eq!(
        cli.command,
        Command::Apply {
            file: Some("./spread.yml".to_string()),
            dry_run: false,
        }
    );

    let cli = Cli::try_parse_from(["herdr-spreader", "apply"]).unwrap();
    assert_eq!(
        cli.command,
        Command::Apply {
            file: None,
            dry_run: false
        }
    );

    let cli = Cli::try_parse_from(["herdr-spreader", "apply", "-f", "./spread.yml"]).unwrap();
    assert_eq!(
        cli.command,
        Command::Apply {
            file: Some("./spread.yml".to_string()),
            dry_run: false,
        }
    );
}

#[test]
fn should_parse_apply_subcommand_with_dry_run_flag() {
    let cli = Cli::try_parse_from(["herdr-spreader", "apply", "--dry-run"]).unwrap();
    assert_eq!(
        cli.command,
        Command::Apply {
            file: None,
            dry_run: true
        }
    );
    let cli = Cli::try_parse_from(["herdr-spreader", "apply", "--file", "x", "--dry-run"]).unwrap();
    assert_eq!(
        cli.command,
        Command::Apply {
            file: Some("x".to_string()),
            dry_run: true
        }
    );
    let cli = Cli::try_parse_from(["herdr-spreader", "apply"]).unwrap();
    assert_eq!(
        cli.command,
        Command::Apply {
            file: None,
            dry_run: false
        }
    );
}

#[test]
fn should_reject_validate_subcommand() {
    let result = Cli::try_parse_from(["herdr-spreader", "validate"]);
    assert!(
        result.is_err(),
        "validate subcommand should no longer be parsed"
    );
}

#[test]
fn should_parse_apply_existing_with_required_target_ids() {
    let cli = Cli::try_parse_from([
        "herdr-spreader",
        "apply-existing",
        "--file",
        "./spread.yml",
        "--workspace-id",
        "w2",
        "--tab-id",
        "w2:t1",
        "--root-pane-id",
        "w2:p1",
    ])
    .unwrap();

    assert_eq!(
        cli.command,
        Command::ApplyExisting {
            file: Some("./spread.yml".to_string()),
            workspace_id: "w2".into(),
            tab_id: "w2:t1".into(),
            root_pane_id: "w2:p1".into(),
            root: None,
            dry_run: false,
        }
    );
}

#[test]
fn should_parse_apply_existing_with_explicit_root() {
    let cli = Cli::try_parse_from([
        "herdr-spreader",
        "apply-existing",
        "--workspace-id",
        "w2",
        "--tab-id",
        "w2:t1",
        "--root-pane-id",
        "w2:p1",
        "--root",
        "/worktrees/topic",
    ])
    .unwrap();

    assert_eq!(
        cli.command,
        Command::ApplyExisting {
            file: None,
            workspace_id: "w2".into(),
            tab_id: "w2:t1".into(),
            root_pane_id: "w2:p1".into(),
            root: Some("/worktrees/topic".to_string()),
            dry_run: false,
        }
    );
}

#[test]
fn cli_accepts_attached_values_in_both_forms() {
    let cli = Cli::try_parse_from(["herdr-spreader", "apply", "--file=a.yml"]).unwrap();
    assert_eq!(cli.command, Command::Apply { file: Some("a.yml".to_string()), dry_run: false });
    let cli = Cli::try_parse_from(["herdr-spreader", "apply", "-fb.yml"]).unwrap();
    assert_eq!(cli.command, Command::Apply { file: Some("b.yml".to_string()), dry_run: false });
    let cli = Cli::try_parse_from(["herdr-spreader", "apply", "-f=c.yml"]).unwrap();
    assert_eq!(cli.command, Command::Apply { file: Some("c.yml".to_string()), dry_run: false });
}

#[test]
fn cli_reports_each_refusal() {
    assert_eq!(Cli::try_parse_from(["herdr-spreader"]), Err(CliError::MissingSubcommand));
    assert_eq!(
        Cli::try_parse_from(["herdr-spreader", "validate"]),
        Err(CliError::UnknownSubcommand("validate".to_string()))
    );
    assert_eq!(
        Cli::try_parse_from(["herdr-spreader", "apply", "--bogus"]),
        Err(CliError::UnexpectedArgument("--bogus".to_string()))
    );
    assert_eq!(
        Cli::try_parse_from(["herdr-spreader", "apply", "--file"]),
        Err(CliError::MissingValue("--file".to_string()))
    );
    assert_eq!(
        Cli::try_parse_from(["herdr-spreader", "apply", "--file", "--dry-run"]),
        Err(CliError::MissingValue("--file".to_string()))
    );
    assert_eq!(
        Cli::try_parse_from(["herdr-spreader", "apply", "--file="]),
        Err(CliError::EmptyValue("--file".to_string()))
    );
    assert_eq!(
        Cli::try_parse_from(["herdr-spreader", "apply", "--dry-run", "--dry-run"]),
        Err(CliError::RepeatedArgument("--dry-run".to_string()))
    );
    assert_eq!(
        Cli::try_parse_from(["herdr-spreader", "apply-existing", "--workspace-id", "w"]),
        Err(CliError::MissingRequired("--tab-id".to_string()))
    );
    assert_eq!(Cli::try_parse_from(["herdr-spreader", "apply", "-h"]), Err(CliError::HelpRequested));
    assert_eq!(
        Cli::try_parse_from(["herdr-spreader", "apply", "--root", "/x"]),
        Err(CliError::UnexpectedArgument("--root".to_string()))
    );
}
