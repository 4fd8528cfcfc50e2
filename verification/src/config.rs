//! User settings: presentation and analysis limits. Reading and writing
//! the settings file is the binary's business; this is the value and its
//! defaults.

use vstd::prelude::*;
use crate::theme::theme_table;

verus! {

/// The user's settings.
#[derive(Clone, Debug, PartialEq, Eq)]
pub struct Config {
    pub language: String,
    pub nerd_font: bool,
    pub theme: String,
    /// Most commits to index.
    pub max_commits: u64,
    /// Path patterns left out of the metrics (on top of the built-in ones).
    pub ignores: Vec<String>,
    /// Neither read nor write the history cache.
    pub no_cache: bool,
}

/// The default ceiling of indexed commits.
pub fn default_max_commits() -> (n: u64)
    ensures
        n == 50_000,
{
    50_000
}

impl Default for Config {
    /// Spanish, no nerd-font glyphs, the "Advance Ink" theme, 50,000
    /// commits, no extra ignores, cache on.
    fn default() -> (c: Self)
        ensures
            c.language@ == "es"@,
            !c.nerd_font,
            c.theme@ == "Advance Ink"@,
            c.theme@ == theme_table()[theme_table().len() - 1].name@,
            c.max_commits == 50_000,
            c.ignores@.len() == 0,
            !c.no_cache,
    {
        Config {
            language: "es".to_owned(),
            nerd_font: false,
            theme: "Advance Ink".to_owned(),
            max_commits: default_max_commits(),
            ignores: Vec::new(),
            no_cache: false,
        }
    }
}

} // verus!
