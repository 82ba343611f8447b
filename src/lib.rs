//! Loads `.env` style definition files for build scripts: an upward search
//! for the file, a line parser for its `KEY=VALUE` entries with quoting and
//! comments, and the build instructions that carry the entries.
use vstd::prelude::*;

pub mod emit;
pub mod errors;
pub mod find;
pub mod iter;
pub mod parse;

pub use emit::build_instructions;
pub use errors::Error;
pub use find::{candidates, find_internal, find_step, Probe, Step};
pub use iter::{parse_lines, Iter};
pub use parse::parse_line;

verus! {

/// Where to look for a definition file and what to do when there is none.
#[derive(Debug, PartialEq, Eq)]
pub struct Config {
    /// The name of the file, as path components. Defaults to `.env`.
    pub filename: Vec<String>,
    /// Whether to search the ancestors of the start directory too. Defaults
    /// to `true`.
    pub recursive_search: bool,
    /// Whether a missing file is an error. Defaults to `false`.
    pub fail_if_missing_dotenv: bool,
}

impl Default for Config {
    fn default() -> (r: Config)
        ensures
            r.filename@.len() == 1,
            r.filename@[0]@ == ".env"@,
            r.recursive_search,
            !r.fail_if_missing_dotenv,
    {
        let mut filename: Vec<String> = Vec::new();
        filename.push(String::from_str(".env"));
        Config { filename, recursive_search: true, fail_if_missing_dotenv: false }
    }
}

} // verus!
