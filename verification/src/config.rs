//! What one invocation asks for, and how it is read from the command line.

use vstd::prelude::*;
use vstd::string::*;
use crate::lines::texts;
use crate::search::{matching, matching_folded, search, search_case_insensitive};

verus! {

/// The name of the environment variable whose presence asks for a search
/// without regard to case.
pub const IGNORE_CASE_VARIABLE: &'static str = "RGREP_IGNORE_CASE";

/// How the program is to be invoked.
pub const USAGE: &'static str = "./rgrep <string-to-search> <file-path>";

/// What to search for, where, and how.
#[derive(Debug, PartialEq, Eq)]
pub struct Config {
    pub query: String,
    pub file_path: String,
    pub ignore_case: bool,
}

/// Why a command line gave no configuration. Each case carries the message
/// for the user, which ends in the usage line.
#[derive(Debug, PartialEq, Eq)]
pub enum ConfigError {
    /// There was no argument after the program's name.
    MissingQuery(String),
    /// There was a query, and no file path after it.
    MissingFilePath(String),
}

/// The message for a command line without a query.
pub open spec fn missing_query_message() -> Seq<char> {
    "Required parameter query string not found\n"@ + USAGE@
}

/// The message for a command line without a file path.
pub open spec fn missing_file_path_message() -> Seq<char> {
    "Required parameter file path not found \n"@ + USAGE@
}

impl ConfigError {
    /// The message for the user.
    pub open spec fn spec_message(&self) -> Seq<char> {
        match self {
            ConfigError::MissingQuery(message) => message@,
            ConfigError::MissingFilePath(message) => message@,
        }
    }

    /// The message for the user.
    pub fn message(&self) -> (text: &str)
        ensures
            text@ == self.spec_message(),
    {
        match self {
            ConfigError::MissingQuery(message) => message.as_str(),
            ConfigError::MissingFilePath(message) => message.as_str(),
        }
    }
}

impl Config {
    /// Reads the configuration from the command line `args` and from the
    /// value of the environment variable `IGNORE_CASE_VARIABLE`, `None`
    /// where it is not set.
    ///
    /// The first argument is the program's own name and is passed over. The
    /// next is the query, the one after it the file path; further arguments
    /// are ignored. Only the presence of the variable counts, not its
    /// value.
    pub fn build(args: &[String], ignore_case_value: Option<&str>) -> (outcome: Result<
        Config,
        ConfigError,
    >)
        ensures
            match outcome {
                Ok(config) => {
                    &&& args@.len() >= 3
                    &&& config.query@ == args@[1]@
                    &&& config.file_path@ == args@[2]@
                    &&& config.ignore_case == ignore_case_value.is_some()
                },
                Err(ConfigError::MissingQuery(message)) => {
                    &&& args@.len() <= 1
                    &&& message@ == missing_query_message()
                },
                Err(ConfigError::MissingFilePath(message)) => {
                    &&& args@.len() == 2
                    &&& message@ == missing_file_path_message()
                },
            },
    {
        if args.len() < 2 {
            let message = String::from_str("Required parameter query string not found\n").concat(
                USAGE,
            );
            return Err(ConfigError::MissingQuery(message));
        }
        if args.len() < 3 {
            let message = String::from_str("Required parameter file path not found \n").concat(
                USAGE,
            );
            return Err(ConfigError::MissingFilePath(message));
        }
        Ok(
            Config {
                query: args[1].clone(),
                file_path: args[2].clone(),
                ignore_case: ignore_case_value.is_some(),
            },
        )
    }
}

/// Searches `contents`, the text of the file that `config` names, for the
/// query of `config`: without regard to case where `config` asks for that,
/// exactly otherwise.
pub fn run<'a>(config: &Config, contents: &'a str) -> (found: Vec<&'a str>)
    ensures
        texts(found@) == if config.ignore_case {
            matching_folded(config.query@, contents@)
        } else {
            matching(config.query@, contents@)
        },
{
    if config.ignore_case {
        search_case_insensitive(config.query.as_str(), contents)
    } else {
        search(config.query.as_str(), contents)
    }
}

} // verus!
