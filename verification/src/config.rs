//! The settings of a run and how arguments and environment give them.

use vstd::prelude::*;
use vstd::string::*;
use crate::substring::same_text;

verus! {

/// What one run searches for, where, and how.
#[derive(Debug)]
pub struct Config {
    /// The text to look for. It may be empty, and then every line holds it.
    pub query: String,
    /// The path of the file to search. Nothing here looks at the file.
    pub filename: String,
    /// Whether upper and lower case differ in the search.
    pub case_sensitive: bool,
}

/// A `Config` with its texts as sequences of characters.
pub ghost struct ConfigView {
    pub query: Seq<char>,
    pub filename: Seq<char>,
    pub case_sensitive: bool,
}

impl View for Config {
    type V = ConfigView;

    open spec fn view(&self) -> ConfigView {
        ConfigView {
            query: self.query@,
            filename: self.filename@,
            case_sensitive: self.case_sensitive,
        }
    }
}

/// Why the arguments gave no `Config`.
#[derive(Debug, Clone, Copy, PartialEq, Eq, Structural)]
pub enum ConfigError {
    /// No argument follows the program's name.
    MissingQuery,
    /// No argument follows the query.
    MissingFilename,
}

impl ConfigError {
    /// The reason in words, for the user.
    pub fn message(&self) -> (text: &'static str)
        ensures
            text@ == match *self {
                ConfigError::MissingQuery => "Didn't get a query string"@,
                ConfigError::MissingFilename => "Didn't get a filename"@,
            },
    {
        match self {
            ConfigError::MissingQuery => "Didn't get a query string",
            ConfigError::MissingFilename => "Didn't get a filename",
        }
    }
}

/// The name of the environment variable that, when set, makes the search
/// ignore case.
pub open spec fn case_variable() -> Seq<char> {
    "CASE_INSENSITIVE"@
}

/// The argument that, behind query and file name, makes the search ignore
/// case.
pub open spec fn case_flag() -> Seq<char> {
    "-i"@
}

/// True when the environment, a list of names with their values, holds a
/// variable called `name`, whatever its value.
pub open spec fn is_set(env: Seq<(Seq<char>, Seq<char>)>, name: Seq<char>) -> bool {
    exists|i: int| 0 <= i < env.len() && (#[trigger] env[i]).0 == name
}

/// True when `token` is among the arguments from index `from` on.
pub open spec fn follows(args: Seq<Seq<char>>, from: int, token: Seq<char>) -> bool {
    exists|i: int| from <= i < args.len() && #[trigger] args[i] == token
}

/// What the arguments and the environment ask for. The first argument, the
/// program's name, is passed over; the second is the query, the third the
/// file name. Case matters unless the case variable is set or the case flag
/// follows the file name.
pub open spec fn resolve(args: Seq<Seq<char>>, env: Seq<(Seq<char>, Seq<char>)>) -> Result<
    ConfigView,
    ConfigError,
> {
    if args.len() < 2 {
        Err(ConfigError::MissingQuery)
    } else if args.len() < 3 {
        Err(ConfigError::MissingFilename)
    } else {
        Ok(
            ConfigView {
                query: args[1],
                filename: args[2],
                case_sensitive: !is_set(env, case_variable()) && !follows(args, 3, case_flag()),
            },
        )
    }
}

/// Tells whether the environment holds a variable called `name`.
fn holds_variable(env: &[(String, String)], name: &str) -> (found: bool)
    ensures
        found == is_set(env.deep_view(), name@),
{
    let mut i: usize = 0;
    while i < env.len()
        invariant
            i <= env.len(),
            forall|k: int| 0 <= k < i ==> (#[trigger] env.deep_view()[k]).0 != name@,
        decreases env.len() - i,
    {
        if same_text(env[i].0.as_str(), name) {
            assert(env.deep_view()[i as int].0 == name@);
            return true;
        }
        i += 1;
    }
    false
}

/// Tells whether `token` is among the arguments from index `from` on.
fn holds_token(args: &[String], from: usize, token: &str) -> (found: bool)
    ensures
        found == follows(args.deep_view(), from as int, token@),
{
    let mut i: usize = from;
    while i < args.len()
        invariant
            from <= i,
            forall|k: int|
                from <= k < i && k < args.len() ==> #[trigger] args.deep_view()[k] != token@,
        decreases args.len() - i,
    {
        if same_text(args[i].as_str(), token) {
            assert(args.deep_view()[i as int] == token@);
            return true;
        }
        i += 1;
    }
    false
}

impl Config {
    /// Reads a `Config` from the arguments of the program, the program's
    /// name first, and from the environment, given as its variables' names
    /// and values.
    pub fn new(args: &[String], env: &[(String, String)]) -> (result: Result<Config, ConfigError>)
        ensures
            match result {
                Ok(config) => resolve(args.deep_view(), env.deep_view()) == Ok::<
                    ConfigView,
                    ConfigError,
                >(config@),
                Err(error) => resolve(args.deep_view(), env.deep_view()) == Err::<
                    ConfigView,
                    ConfigError,
                >(error),
            },
            result is Ok <==> args.len() >= 3,
            result == Err::<Config, ConfigError>(ConfigError::MissingQuery) <==> args.len() < 2,
            result == Err::<Config, ConfigError>(ConfigError::MissingFilename) <==> args.len()
                == 2,
            result is Ok && is_set(env.deep_view(), case_variable())
                ==> !result->Ok_0.case_sensitive,
            result is Ok && !is_set(env.deep_view(), case_variable()) ==> (
            result->Ok_0.case_sensitive <==> !follows(args.deep_view(), 3, case_flag())),
    {
        if args.len() < 2 {
            return Err(ConfigError::MissingQuery);
        }
        if args.len() < 3 {
            return Err(ConfigError::MissingFilename);
        }
        let query = args[1].clone();
        let filename = args[2].clone();
        let case_sensitive = if holds_variable(env, "CASE_INSENSITIVE") {
            false
        } else {
            !holds_token(args, 3, "-i")
        };
        Ok(Config { query, filename, case_sensitive })
    }
}

} // verus!
