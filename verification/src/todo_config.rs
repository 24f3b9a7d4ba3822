//! The configuration of the todo extractor: path exclusions and daily-note patterns, with
//! their defaults and environment overrides (`MARKDOWN_TODO_EXTRACTOR_*`).
use vstd::prelude::*;

use crate::config::{append_items, excluded_by, list_setting, path_excluded};
use crate::text::{strings_view, to_string};

verus! {

pub open spec fn spec_default_daily_note_patterns() -> Seq<Seq<char>> {
    seq![seq!['Y', 'Y', 'Y', 'Y', '-', 'M', 'M', '-', 'D', 'D', '.', 'm', 'd']]
}

/// The daily-note pattern used when none is configured: `YYYY-MM-DD.md`.
pub fn default_daily_note_patterns() -> (r: Vec<String>)
    ensures
        strings_view(r@) == spec_default_daily_note_patterns(),
{
    let a = to_string("YYYY-MM-DD.md");
    proof {
        reveal_strlit("YYYY-MM-DD.md");
    }
    assert(a@ =~= spec_default_daily_note_patterns()[0]);
    let mut v: Vec<String> = Vec::new();
    v.push(a);
    assert(strings_view(v@) =~= spec_default_daily_note_patterns());
    v
}

#[derive(Debug, Clone)]
pub struct Config {
    pub exclude_paths: Vec<String>,
    pub daily_note_patterns: Vec<String>,
}

impl Default for Config {
    fn default() -> (r: Self)
        ensures
            r.exclude_paths@.len() == 0,
            strings_view(r.daily_note_patterns@) == spec_default_daily_note_patterns(),
    {
        Config { exclude_paths: Vec::new(), daily_note_patterns: default_daily_note_patterns() }
    }
}

impl Config {
    /// Merges the comma-separated exclusion and daily-note pattern lists read from the
    /// environment (`MARKDOWN_TODO_EXTRACTOR_EXCLUDE_PATHS`,
    /// `MARKDOWN_TODO_EXTRACTOR_DAILY_NOTE_PATTERNS`): their non-empty trimmed items are
    /// appended.
    pub fn merge_from_env(&mut self, exclude_paths: &Option<String>, daily_note_patterns: &Option<String>)
        ensures
            strings_view(final(self).exclude_paths@) == list_setting(old(self).exclude_paths@, *exclude_paths),
            strings_view(final(self).daily_note_patterns@) == list_setting(
                old(self).daily_note_patterns@,
                *daily_note_patterns,
            ),
    {
        append_items(&mut self.exclude_paths, exclude_paths);
        append_items(&mut self.daily_note_patterns, daily_note_patterns);
    }

    /// Check if a given path should be excluded based on configured patterns: a pattern
    /// excludes the path when it matches it as a glob or occurs in it as text.
    pub fn should_exclude(&self, path: &str) -> (r: bool)
        ensures
            r == excluded_by(self.exclude_paths@, path@),
    {
        path_excluded(&self.exclude_paths, path)
    }
}

} // verus!
