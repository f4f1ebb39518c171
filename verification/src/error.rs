//! The library's error type.
use vstd::prelude::*;
use vstd::string::StringExecFns;

verus! {

/// What can go wrong.
#[derive(Clone, PartialEq, Eq, Debug)]
pub enum WlError {
    /// A file-system failure, with its message.
    Io(String),
    /// A failure of the index store, with its message.
    Db(String),
    /// A configuration problem, with its message.
    Config(String),
    /// No wordlist has the given name.
    NotFound(String),
    /// An index or update was asked for while no repository is configured.
    NoReposConfigured,
    /// The command line asks for something contradictory, with what is wrong.
    Usage(String),
}

/// The message that each error shows to the user.
pub open spec fn error_message(e: WlError) -> Seq<char> {
    match e {
        WlError::Io(m) => "I/O error: "@ + m@,
        WlError::Db(m) => "Database error: "@ + m@,
        WlError::Config(m) => "Configuration error: "@ + m@,
        WlError::NotFound(m) => "Wordlist not found: "@ + m@,
        WlError::NoReposConfigured => "No repos configured. Run: wl config add-repo <path>"@,
        WlError::Usage(m) => "Usage error: "@ + m@,
    }
}

/// The exit status of each error: 1 when a wordlist is not found, 2 when the tool is used
/// wrongly (contradictory flags, no repository configured), 3 for failures of the file
/// system, the store or the configuration file.
pub open spec fn error_exit_code(e: WlError) -> i32 {
    match e {
        WlError::NotFound(_) => 1,
        WlError::Usage(_) => 2,
        WlError::NoReposConfigured => 2,
        WlError::Io(_) => 3,
        WlError::Db(_) => 3,
        WlError::Config(_) => 3,
    }
}

impl WlError {
    /// The message shown to the user.
    pub fn message(&self) -> (r: String)
        ensures
            r@ == error_message(*self),
    {
        match self {
            WlError::Io(m) => String::from_str("I/O error: ").concat(m.as_str()),
            WlError::Db(m) => String::from_str("Database error: ").concat(m.as_str()),
            WlError::Config(m) => String::from_str("Configuration error: ").concat(m.as_str()),
            WlError::NotFound(m) => String::from_str("Wordlist not found: ").concat(m.as_str()),
            WlError::NoReposConfigured => String::from_str(
                "No repos configured. Run: wl config add-repo <path>",
            ),
            WlError::Usage(m) => String::from_str("Usage error: ").concat(m.as_str()),
        }
    }

    /// The exit status the command ends with on this error.
    pub fn exit_code(&self) -> (r: i32)
        ensures
            r == error_exit_code(*self),
    {
        match self {
            WlError::NotFound(_) => 1,
            WlError::Usage(_) => 2,
            WlError::NoReposConfigured => 2,
            WlError::Io(_) => 3,
            WlError::Db(_) => 3,
            WlError::Config(_) => 3,
        }
    }
}

} // verus!
