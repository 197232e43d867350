//! What one run of the search is asked to do, and the run itself.

use vstd::prelude::*;
use crate::search::{matching_lines, matching_lines_folded, search, search_case_insensitive};

verus! {

/// One search: what to look for, where, and whether letter case counts.
pub struct Config {
    /// The text to look for.
    pub query: String,
    /// The path of the file to search.
    pub file_path: String,
    /// Whether letter case is set aside.
    pub ignore_case: bool,
}

impl Config {
    /// The search that a command line asks for. `args` is the whole command
    /// line: the program's name, the query and the path of the file; what
    /// follows them is not read. A command line shorter than that is
    /// refused. `ignore_case` is handed over as it is.
    pub fn build(args: &[String], ignore_case: bool) -> (built: Result<Config, &'static str>)
        ensures
            built is Err <==> args@.len() < 3,
            built matches Err(why) ==> why@ == "not enough arguments"@,
            built matches Ok(config) ==> {
                &&& config.query@ == args@[1]@
                &&& config.file_path@ == args@[2]@
                &&& config.ignore_case == ignore_case
            },
    {
        if args.len() < 3 {
            return Err("not enough arguments");
        }
        let query = args[1].clone();
        let file_path = args[2].clone();
        Ok(Config { query, file_path, ignore_case })
    }

    /// The lines of `contents` that this search finds.
    pub open spec fn matches(&self, contents: Seq<char>) -> Seq<Seq<char>> {
        if self.ignore_case {
            matching_lines_folded(self.query@, contents)
        } else {
            matching_lines(self.query@, contents)
        }
    }
}

/// Carries out the search `config` on `contents`, the text of its file: the
/// lines that hold the query, in order, letter case counting or not as
/// `config` says.
pub fn run<'a>(config: &Config, contents: &'a str) -> (found: Vec<&'a str>)
    ensures
        found.deep_view() == config.matches(contents@),
{
    if config.ignore_case {
        search_case_insensitive(config.query.as_str(), contents)
    } else {
        search(config.query.as_str(), contents)
    }
}

} // verus!
