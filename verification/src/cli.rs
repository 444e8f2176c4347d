//! Command-line options of the node.

use vstd::prelude::*;
use crate::text::{chars_to_string, same_text, str_chars};

verus! {

#[derive(Debug, Clone, Copy, PartialEq, Eq, Structural)]
pub enum RunMode {
    Run,
    CheckConfig,
    PrintHelp,
    PrintVersion,
}

#[derive(Debug, Clone, PartialEq, Eq)]
pub struct CliOptions {
    pub config_path: String,
    pub mode: RunMode,
}

#[derive(Debug, Clone, PartialEq, Eq)]
pub enum CliError {
    MissingConfigPath,
    InvalidConfigPath(String),
    UnknownArgument(String),
}

/// What parsing the arguments gives: the configuration path and mode, or
/// the error with the argument it names.
pub enum CliOutcome {
    Options(Seq<char>, RunMode),
    MissingConfigPath,
    InvalidConfigPath(Seq<char>),
    UnknownArgument(Seq<char>),
}

/// Parsing from argument `i` on, with the path and mode chosen so far:
/// `--config <path>` sets the path (which may not start with `-`),
/// `--check-config` sets the mode, `--help`/`-?` and `--version` stop at once.
pub open spec fn parse_from(args: Seq<Seq<char>>, i: int, path: Seq<char>, mode: RunMode) -> CliOutcome
    decreases args.len() - i,
{
    if i < 0 || i >= args.len() {
        CliOutcome::Options(path, mode)
    } else {
        let a = args[i];
        if a == "--config"@ {
            if i + 1 >= args.len() {
                CliOutcome::MissingConfigPath
            } else if args[i + 1].len() > 0 && args[i + 1][0] == '-' {
                CliOutcome::InvalidConfigPath(args[i + 1])
            } else {
                parse_from(args, i + 2, args[i + 1], mode)
            }
        } else if a == "--help"@ || a == "-?"@ {
            CliOutcome::Options(path, RunMode::PrintHelp)
        } else if a == "--version"@ {
            CliOutcome::Options(path, RunMode::PrintVersion)
        } else if a == "--check-config"@ {
            parse_from(args, i + 1, path, RunMode::CheckConfig)
        } else {
            CliOutcome::UnknownArgument(a)
        }
    }
}

/// The arguments after the program name, parsed from `config.toml` and `Run`.
pub open spec fn parse_spec(args: Seq<Seq<char>>) -> CliOutcome {
    parse_from(args, 1, "config.toml"@, RunMode::Run)
}

pub open spec fn strings_view(v: Seq<String>) -> Seq<Seq<char>> {
    v.map_values(|s: String| s@)
}

pub open spec fn result_view(r: Result<CliOptions, CliError>) -> CliOutcome {
    match r {
        Ok(o) => CliOutcome::Options(o.config_path@, o.mode),
        Err(CliError::MissingConfigPath) => CliOutcome::MissingConfigPath,
        Err(CliError::InvalidConfigPath(p)) => CliOutcome::InvalidConfigPath(p@),
        Err(CliError::UnknownArgument(a)) => CliOutcome::UnknownArgument(a@),
    }
}

fn starts_with_dash(a: &str) -> (r: bool)
    ensures
        r == (a@.len() > 0 && a@[0] == '-'),
{
    let x = str_chars(a);
    x.len() > 0 && x[0] == '-'
}

fn copy_string(s: &String) -> (r: String)
    ensures
        r@ == s@,
{
    String::from_str(s.as_str())
}

/// Parses the program's arguments, the first being the program name.
pub fn parse_cli(args: &[String]) -> (r: Result<CliOptions, CliError>)
    ensures
        result_view(r) == parse_spec(strings_view(args@)),
{
    let ghost sa = strings_view(args@);
    let mut config_path = String::from_str("config.toml");
    let mut mode = RunMode::Run;
    let mut i: usize = 1;
    while i < args.len()
        invariant
            1 <= i,
            sa == strings_view(args@),
            parse_spec(sa) == parse_from(sa, i as int, config_path@, mode),
        decreases args@.len() - i,
    {
        let a = args[i].as_str();
        assert(sa[i as int] == a@);
        if same_text(a, "--config") {
            if i + 1 >= args.len() {
                return Err(CliError::MissingConfigPath);
            }
            assert(sa[i + 1] == args@[i + 1]@);
            if starts_with_dash(args[i + 1].as_str()) {
                return Err(CliError::InvalidConfigPath(copy_string(&args[i + 1])));
            }
            config_path = copy_string(&args[i + 1]);
            i += 2;
        } else if same_text(a, "--help") || same_text(a, "-?") {
            return Ok(CliOptions { config_path, mode: RunMode::PrintHelp });
        } else if same_text(a, "--version") {
            return Ok(CliOptions { config_path, mode: RunMode::PrintVersion });
        } else if same_text(a, "--check-config") {
            mode = RunMode::CheckConfig;
            i += 1;
        } else {
            return Err(CliError::UnknownArgument(String::from_str(a)));
        }
    }
    Ok(CliOptions { config_path, mode })
}

impl CliError {
    pub open spec fn message_spec(&self) -> Seq<char> {
        match self {
            CliError::MissingConfigPath => "--config requires a path"@,
            CliError::InvalidConfigPath(p) => "--config requires a path, got '"@ + p@ + "'"@,
            CliError::UnknownArgument(a) => "unknown argument: "@ + a@,
        }
    }

    /// The error as the program prints it.
    pub fn to_string(&self) -> (s: String)
        ensures
            s@ == self.message_spec(),
    {
        match self {
            CliError::MissingConfigPath => String::from_str("--config requires a path"),
            CliError::InvalidConfigPath(p) => {
                let mut v = str_chars("--config requires a path, got '");
                let mut w = str_chars(p.as_str());
                v.append(&mut w);
                let mut e = str_chars("'");
                v.append(&mut e);
                chars_to_string(&v)
            },
            CliError::UnknownArgument(a) => {
                let mut v = str_chars("unknown argument: ");
                let mut w = str_chars(a.as_str());
                v.append(&mut w);
                chars_to_string(&v)
            },
        }
    }
}

} // verus!
