//! `.djqlint.toml` configuration.
//!
//! ```toml
//! [rules]
//! disabled = ["P002"]          # turn rules off by code
//!
//! [files]
//! exclude = ["migrations/", "tests/", "/snapshots/"]
//! respect_gitignore = true     # honour .gitignore (default: true)
//! ```

use vstd::prelude::*;

verus! {

/// The whole configuration.
#[derive(Debug, Clone)]
pub struct Config {
    pub rules: RulesConfig,
    pub files: FilesConfig,
}

/// The `[rules]` table.
#[derive(Debug, Clone)]
pub struct RulesConfig {
    /// Rule codes to disable entirely, e.g. `["P002", "N001"]`.
    pub disabled: Vec<String>,
}

/// The `[files]` table.
#[derive(Debug, Clone)]
pub struct FilesConfig {
    /// Substrings; any path containing one is skipped.
    pub exclude: Vec<String>,
    /// Whether to honour `.gitignore`/`.ignore` files.
    pub respect_gitignore: bool,
}

impl Default for RulesConfig {
    fn default() -> (r: Self)
        ensures
            r.disabled@.len() == 0,
    {
        RulesConfig { disabled: Vec::new() }
    }
}

impl Default for FilesConfig {
    fn default() -> (r: Self)
        ensures
            r.exclude@.len() == 0,
            r.respect_gitignore,
    {
        FilesConfig { exclude: Vec::new(), respect_gitignore: default_true() }
    }
}

impl Default for Config {
    fn default() -> (r: Self)
        ensures
            r.rules.disabled@.len() == 0,
            r.files.exclude@.len() == 0,
            r.files.respect_gitignore,
    {
        Config { rules: RulesConfig::default(), files: FilesConfig::default() }
    }
}

/// The value of `respect_gitignore` when the table leaves it out.
pub fn default_true() -> (r: bool)
    ensures
        r,
{
    true
}

} // verus!
