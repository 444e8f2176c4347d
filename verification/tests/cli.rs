use rust_mule::cli::{parse_cli, CliError, RunMode};

fn args(list: &[&str]) -> Vec<String> {
    list.iter().map(|s| s.to_string()).collect()
}

#[test]
fn parse_cli_defaults_to_run_with_default_config() {
    let opts = parse_cli(&args(&["rust-mule"])).expect("parse");
    assert_eq!(opts.config_path, "config.toml");
    assert_eq!(opts.mode, RunMode::Run);
}

#[test]
fn parse_cli_supports_config_path_and_check_config() {
    let opts = parse_cli(&args(&["rust-mule", "--config", "/tmp/alpha.toml", "--check-config"]))
        .expect("parse");
    assert_eq!(opts.config_path, "/tmp/alpha.toml");
    assert_eq!(opts.mode, RunMode::CheckConfig);
}

#[test]
fn parse_cli_supports_help_and_version() {
    assert_eq!(
        parse_cli(&args(&["rust-mule", "--help"])).expect("help").mode,
        RunMode::PrintHelp
    );
    assert_eq!(
        parse_cli(&args(&["rust-mule", "-?"])).expect("short help").mode,
        RunMode::PrintHelp
    );
    assert_eq!(
        parse_cli(&args(&["rust-mule", "--version"])).expect("version").mode,
        RunMode::PrintVersion
    );
}

#[test]
fn parse_cli_short_circuits_help_and_version() {
    assert_eq!(
        parse_cli(&args(&["rust-mule", "--help", "--wat"]))
            .expect("help short-circuit")
            .mode,
        RunMode::PrintHelp
    );
    assert_eq!(
        parse_cli(&args(&["rust-mule", "--version", "--wat"]))
            .expect("version short-circuit")
            .mode,
        RunMode::PrintVersion
    );
}

#[test]
fn parse_cli_rejects_missing_config_path() {
    let err = parse_cli(&args(&["rust-mule", "--config"])).expect_err("missing path");
    assert!(matches!(err, CliError::MissingConfigPath));
}

#[test]
fn parse_cli_rejects_flag_like_config_path() {
    let err = parse_cli(&args(&["rust-mule", "--config", "--check-config"]))
        .expect_err("invalid config path");
    assert!(matches!(
        err,
        CliError::InvalidConfigPath(ref path) if path == "--check-config"
    ));
}

#[test]
fn parse_cli_rejects_unknown_argument() {
    let err = parse_cli(&args(&["rust-mule", "--wat"])).expect_err("unknown argument");
    assert!(matches!(err, CliError::UnknownArgument(ref arg) if arg == "--wat"));
}

#[test]
fn cli_errors_read_as_messages() {
    assert_eq!(CliError::MissingConfigPath.to_string(), "--config requires a path");
    assert_eq!(
        CliError::InvalidConfigPath("-x".to_string()).to_string(),
        "--config requires a path, got '-x'"
    );
    assert_eq!(CliError::UnknownArgument("--wat".to_string()).to_string(), "unknown argument: --wat");
}

#[test]
fn config_path_may_be_given_twice_the_last_wins() {
    let opts = parse_cli(&args(&["rust-mule", "--config", "a.toml", "--config", "b.toml"])).expect("parse");
    assert_eq!(opts.config_path, "b.toml");
    assert_eq!(opts.mode, RunMode::Run);
}
