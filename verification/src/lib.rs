//! A search for the lines of a text that hold a query, with or without
//! regard to case, and the reading of its settings from the arguments and
//! the environment of a program.
//!
//! Texts are modelled as sequences of characters, the view of `str`. The
//! executable code works on the bytes of the texts and cuts lines out of
//! them without copying; the contracts speak of characters only.

use vstd::prelude::*;

pub mod config;
pub mod encoding;
pub mod lines;
pub mod search;
pub mod substring;

pub use config::{Config, ConfigError};
pub use search::{search, search_case_insensitive};
use config::ConfigView;
use search::{matching_lines, matching_lines_ignoring_case};

verus! {

/// The lines that a run with `config` finds in `contents`: those that hold
/// the query, with or without regard to case as `config` says.
pub open spec fn found_lines(config: ConfigView, contents: Seq<char>) -> Seq<Seq<char>> {
    if config.case_sensitive {
        matching_lines(config.query, contents)
    } else {
        matching_lines_ignoring_case(config.query, contents)
    }
}

/// Searches `contents`, the text of the file that `config` names, for the
/// query of `config`, and returns the lines to print, in order.
pub fn run<'a>(config: &Config, contents: &'a str) -> (found: Vec<&'a str>)
    ensures
        found.deep_view() == found_lines(config@, contents@),
{
    if config.case_sensitive {
        search(config.query.as_str(), contents)
    } else {
        search_case_insensitive(config.query.as_str(), contents)
    }
}

} // verus!
