//! Turning raw options into a runnable configuration: which operation to
//! perform, against which configuration file, from which working
//! directory.

use vstd::prelude::*;

use crate::opts::Opts;
use crate::strings::str_eq;

verus! {

/// The operation a single invocation performs.
#[derive(Debug, PartialEq, Eq)]
pub enum Operation {
    /// Print every visible key, or the one named key.
    Print(Option<String>),
    /// Set a key to a value under the working directory and persist.
    Add(String, String),
    /// Remove a key under the working directory and persist.
    Remove(String),
}

/// Why raw options could not be turned into a configuration.
#[derive(Debug, PartialEq, Eq)]
pub enum ConfigError {
    /// `add` was not given exactly a key and a value.
    AddArity,
    /// `rm` was not given exactly a key.
    RemoveArity,
    /// More than one free argument outside `add` and `rm`.
    TooManyArgs,
    /// No working directory was given and none could be supplied.
    PwdUnavailable,
}

impl ConfigError {
    /// The error's message text.
    pub fn message(&self) -> (r: String)
        ensures
            (match self {
                ConfigError::AddArity => r@ == "add command requires 2 arguments"@,
                ConfigError::RemoveArity => r@ == "add command requires 1 arguments"@,
                ConfigError::TooManyArgs => r@ == "too many arguments"@,
                ConfigError::PwdUnavailable => r@ == "Error getting current directory"@,
            }),
    {
        match self {
            ConfigError::AddArity => "add command requires 2 arguments".to_owned(),
            ConfigError::RemoveArity => "add command requires 1 arguments".to_owned(),
            ConfigError::TooManyArgs => "too many arguments".to_owned(),
            ConfigError::PwdUnavailable => "Error getting current directory".to_owned(),
        }
    }
}

/// `op` is the operation the free arguments `args` ask for:
///
/// - no argument: print everything;
/// - `add k v`: set `k` to `v`;
/// - `rm k`: remove `k`;
/// - one other argument `k`: print the one key `k`.
pub open spec fn operation_matches(op: Operation, args: Seq<String>) -> bool {
    match op {
        Operation::Print(None) => args.len() == 0,
        Operation::Print(Some(k)) => args.len() == 1 && k@ == args[0]@
            && args[0]@ != "add"@ && args[0]@ != "rm"@,
        Operation::Add(k, v) => args.len() == 3 && args[0]@ == "add"@
            && k@ == args[1]@ && v@ == args[2]@,
        Operation::Remove(k) => args.len() == 2 && args[0]@ == "rm"@
            && args[0]@ != "add"@ && k@ == args[1]@,
    }
}

/// `e` is the complaint the free arguments `args` earn: a wrong arity
/// after `add` or `rm`, or more than one free argument otherwise.
pub open spec fn operation_error_matches(e: ConfigError, args: Seq<String>) -> bool {
    match e {
        ConfigError::AddArity => args.len() >= 1 && args[0]@ == "add"@ && args.len() != 3,
        ConfigError::RemoveArity => args.len() >= 1 && args[0]@ == "rm"@
            && args[0]@ != "add"@ && args.len() != 2,
        ConfigError::TooManyArgs => args.len() > 1 && args[0]@ != "add"@ && args[0]@ != "rm"@,
        ConfigError::PwdUnavailable => false,
    }
}

/// The free arguments `args` name a well-formed operation.
pub open spec fn operation_ok(args: Seq<String>) -> bool {
    ||| args.len() == 0
    ||| (args[0]@ == "add"@ && args.len() == 3)
    ||| (args[0]@ == "rm"@ && args[0]@ != "add"@ && args.len() == 2)
    ||| (args.len() == 1 && args[0]@ != "add"@ && args[0]@ != "rm"@)
}

impl Operation {
    /// Reads the operation out of the free arguments.
    pub fn try_from(args: Vec<String>) -> (r: Result<Operation, ConfigError>)
        ensures
            (match r {
                Ok(op) => operation_matches(op, args@),
                Err(e) => operation_error_matches(e, args@),
            }),
    {
        if args.len() == 0 {
            return Ok(Operation::Print(None));
        }
        if str_eq(args[0].as_str(), "add") {
            if args.len() != 3 {
                return Err(ConfigError::AddArity);
            }
            let k = args[1].clone();
            let v = args[2].clone();
            return Ok(Operation::Add(k, v));
        }
        if str_eq(args[0].as_str(), "rm") {
            if args.len() != 2 {
                return Err(ConfigError::RemoveArity);
            }
            let k = args[1].clone();
            return Ok(Operation::Remove(k));
        }
        if args.len() > 1 {
            return Err(ConfigError::TooManyArgs);
        }
        let k = args[0].clone();
        Ok(Operation::Print(Some(k)))
    }
}

/// One invocation's full configuration.
#[derive(Debug)]
pub struct Config {
    pub operation: Operation,
    pub config: String,
    pub pwd: String,
}

impl Config {
    /// Combines the raw options with the surroundings' defaults: the
    /// configuration-file location to use when the options name none, and
    /// the working directory to use when the options name none (absent
    /// when the surroundings could not tell it).
    ///
    /// A bad argument vector is reported first; a missing working
    /// directory is reported only for an otherwise well-formed invocation.
    pub fn try_from(opts: Opts, default_config: String, default_pwd: Option<String>) -> (r:
        Result<Config, ConfigError>)
        ensures
            (match r {
                Ok(c) => {
                    &&& operation_matches(c.operation, opts.args@)
                    &&& c.config@ == (match opts.config {
                        Some(p) => p@,
                        None => default_config@,
                    })
                    &&& (match opts.pwd {
                        Some(p) => c.pwd@ == p@,
                        None => default_pwd matches Some(p) && c.pwd@ == p@,
                    })
                },
                Err(ConfigError::PwdUnavailable) => operation_ok(opts.args@)
                    && opts.pwd is None && default_pwd is None,
                Err(e) => operation_error_matches(e, opts.args@),
            }),
    {
        let operation = match Operation::try_from(opts.args) {
            Ok(op) => op,
            Err(e) => {
                return Err(e);
            },
        };
        let config = match opts.config {
            Some(p) => p,
            None => default_config,
        };
        let pwd = match opts.pwd {
            Some(p) => p,
            None => match default_pwd {
                Some(p) => p,
                None => {
                    return Err(ConfigError::PwdUnavailable);
                },
            },
        };
        Ok(Config { operation, config, pwd })
    }
}

} // verus!
