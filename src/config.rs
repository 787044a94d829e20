use vstd::prelude::*;

verus! {

/// A search: what to look for, where, and whether case counts.
pub struct Config {
    pub query: String,
    pub filepath: String,
    pub is_case_sensitive: bool,
}

/// Why the arguments could not be turned into a `Config`.
#[derive(Debug, Clone, Copy, PartialEq, Eq)]
pub enum ConfigError {
    MissingQuery,
    MissingFilePath,
}

impl ConfigError {
    /// The text that explains the error to a user.
    pub fn message(&self) -> (r: &'static str)
        ensures
            *self == ConfigError::MissingQuery ==> r@ == "Missing query string"@,
            *self == ConfigError::MissingFilePath ==> r@ == "Missing file path"@,
    {
        match self {
            ConfigError::MissingQuery => "Missing query string",
            ConfigError::MissingFilePath => "Missing file path",
        }
    }
}

/// The error for an argument list of `len` entries, the program name first.
pub open spec fn args_error(len: int) -> Option<ConfigError> {
    if len < 2 {
        Some(ConfigError::MissingQuery)
    } else if len < 3 {
        Some(ConfigError::MissingFilePath)
    } else {
        None
    }
}

impl Config {
    /// Reads the query and the file path from `args`, whose first entry is the
    /// program name; entries after the file path are ignored. The search is
    /// case-insensitive exactly when `case_insensitive_set` (the
    /// `CASE_INSENSITIVE` variable is present in the environment).
    pub fn from(args: Vec<String>, case_insensitive_set: bool) -> (r: Result<Config, ConfigError>)
        ensures
            args_error(args@.len() as int) is Some <==> r is Err,
            r is Err ==> r == Err::<Config, ConfigError>(args_error(args@.len() as int)->0),
            r is Ok ==> r->Ok_0.query@ == args@[1]@ && r->Ok_0.filepath@ == args@[2]@
                && r->Ok_0.is_case_sensitive == !case_insensitive_set,
    {
        if args.len() < 2 {
            return Err(ConfigError::MissingQuery);
        }
        if args.len() < 3 {
            return Err(ConfigError::MissingFilePath);
        }
        let query = args[1].clone();
        let filepath = args[2].clone();
        Ok(Config { query, filepath, is_case_sensitive: !case_insensitive_set })
    }

    /// Reads the query and the file path from `args`, whose first entry is the
    /// program name, for a case-sensitive search; later entries are ignored.
    pub fn build(args: &[String]) -> (r: Result<Config, ConfigError>)
        ensures
            args_error(args@.len() as int) is Some <==> r is Err,
            r is Err ==> r == Err::<Config, ConfigError>(args_error(args@.len() as int)->0),
            r is Ok ==> r->Ok_0.query@ == args@[1]@ && r->Ok_0.filepath@ == args@[2]@
                && r->Ok_0.is_case_sensitive,
    {
        if args.len() < 2 {
            return Err(ConfigError::MissingQuery);
        }
        if args.len() < 3 {
            return Err(ConfigError::MissingFilePath);
        }
        let query = args[1].clone();
        let filepath = args[2].clone();
        Ok(Config { query, filepath, is_case_sensitive: true })
    }
}

} // verus!
