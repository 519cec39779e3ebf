//! The command-line arguments, and the decisions that a run takes from them.

use vstd::prelude::*;

use crate::config::Config;
use crate::reporters::Summary;

verus! {

/// Output format.
#[derive(Clone, Copy, Debug, PartialEq, Eq, Structural)]
pub enum OutputFormat {
    /// Human-readable, source-annotated output.
    Console,
    /// Machine-readable JSON.
    Json,
    /// SARIF 2.1.0 — for GitHub Advanced Security, SonarQube, etc.
    Sarif,
}

/// The command-line arguments.
#[derive(Debug, Clone)]
pub struct Cli {
    /// Files or directories to analyse.
    pub paths: Vec<String>,
    /// Output format.
    pub format: OutputFormat,
    /// Path to a `.djqlint.toml` config file (auto-discovered if omitted).
    pub config: Option<String>,
    /// Write the report to a file instead of stdout.
    pub output: Option<String>,
    /// Do not honour `.gitignore`/`.ignore` files while walking.
    pub no_gitignore: bool,
    /// Print the built-in rules and exit.
    pub list_rules: bool,
    /// Always exit with status 0, even when findings are reported.
    pub exit_zero: bool,
    /// Logging verbosity (-v, -vv).
    pub verbose: u8,
}

/// The default log level for a verbosity count.
pub open spec fn log_level_for(verbose: u8) -> Seq<char> {
    if verbose == 0 {
        "warn"@
    } else if verbose == 1 {
        "info"@
    } else {
        "debug"@
    }
}

/// The log level used when the environment sets none.
pub fn default_log_level(verbose: u8) -> (r: &'static str)
    ensures
        r@ == log_level_for(verbose),
{
    match verbose {
        0 => "warn",
        1 => "info",
        _ => "debug",
    }
}

impl Cli {
    /// Whether the walk honours `.gitignore`: the configuration asks for it and
    /// the command line does not turn it off.
    pub fn respect_gitignore(&self, config: &Config) -> (r: bool)
        ensures
            r == (config.files.respect_gitignore && !self.no_gitignore),
    {
        config.files.respect_gitignore && !self.no_gitignore
    }

    /// Whether the run fails: findings were reported and `--exit-zero` is off.
    pub fn fails(&self, summary: &Summary) -> (r: bool)
        ensures
            r == (summary.total_findings > 0 && !self.exit_zero),
    {
        summary.total_findings > 0 && !self.exit_zero
    }
}

} // verus!
