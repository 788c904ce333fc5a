//! Resolving a run's configuration from the positional arguments and the
//! case-sensitivity flag.

use vstd::prelude::*;

verus! {

/// Why no configuration could be built from the arguments.
#[derive(Clone, Copy, Debug, PartialEq, Eq, Structural)]
pub enum ConfigError {
    /// The query string (second positional argument) is absent.
    MissingQuery,
    /// The file path (third positional argument) is absent.
    MissingFilePath,
}

impl ConfigError {
    /// What `message` returns for each variant.
    pub open spec fn message_spec(self) -> Seq<char> {
        match self {
            ConfigError::MissingQuery => "Didn't get a query string"@,
            ConfigError::MissingFilePath => "Didn't get a file path"@,
        }
    }

    /// A human-readable description of the failed precondition.
    pub fn message(&self) -> (m: &'static str)
        ensures
            m@ == self.message_spec(),
    {
        match self {
            ConfigError::MissingQuery => "Didn't get a query string",
            ConfigError::MissingFilePath => "Didn't get a file path",
        }
    }
}

/// One run's validated configuration: what to search for, where, and how to
/// compare. Immutable once built.
pub struct Config {
    pub query: String,
    pub file_path: String,
    pub ignore_case: bool,
}

impl Config {
    /// Builds a configuration from the argument sequence `args` (the first
    /// element is the program name and is skipped) and the already-resolved
    /// case flag. Fails with `MissingQuery` when no second element exists,
    /// then with `MissingFilePath` when no third element exists; any further
    /// arguments are ignored.
    pub fn new(args: &Vec<String>, ignore_case: bool) -> (result: Result<Config, ConfigError>)
        ensures
            args@.len() < 2 ==> result == Err::<Config, ConfigError>(ConfigError::MissingQuery),
            args@.len() == 2 ==> result == Err::<Config, ConfigError>(
                ConfigError::MissingFilePath,
            ),
            args@.len() >= 3 ==> {
                &&& result is Ok
                &&& result->Ok_0.query@ == args@[1]@
                &&& result->Ok_0.file_path@ == args@[2]@
                &&& result->Ok_0.ignore_case == ignore_case
            },
    {
        if args.len() < 2 {
            return Err(ConfigError::MissingQuery);
        }
        if args.len() < 3 {
            return Err(ConfigError::MissingFilePath);
        }
        let query = args[1].clone();
        let file_path = args[2].clone();
        Ok(Config { query, file_path, ignore_case })
    }
}

} // verus!
