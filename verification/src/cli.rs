//! The command line: global flags, an optional wordlist name for a lookup, and a subcommand.
use vstd::prelude::*;

verus! {

/// What the command line asks for.
#[derive(Clone, PartialEq, Eq, Debug)]
pub struct Cli {
    /// Output as JSON.
    pub json: bool,
    /// Output as a formatted table.
    pub table: bool,
    /// Suppress all stderr output.
    pub quiet: bool,
    /// A wordlist name to look up (the default command).
    pub name: Option<String>,
    /// The subcommand, if any.
    pub command: Option<Commands>,
}

/// The subcommands.
#[allow(inconsistent_fields)]
#[derive(Clone, PartialEq, Eq, Debug)]
pub enum Commands {
    /// Fuzzy search wordlists, optionally among those carrying any of a comma-separated list
    /// of tags.
    Search { query: String, tag: Option<String> },
    /// Scan and index wordlists (a full rebuild), optionally one path only.
    Index { path: Option<String> },
    /// Scan incrementally, skipping unchanged files, optionally one path only.
    Update { path: Option<String> },
    /// List indexed wordlists, filtered by repositories, extensions and tags, each a
    /// comma-separated list of values to match any of.
    Ls { repo: Option<String>, ext: Option<String>, tag: Option<String> },
    /// Display full metadata for a wordlist.
    Info { name: String },
    /// Collection statistics.
    Stats { repo: bool, category: bool, largest: bool, extensions: bool },
    /// Find duplicate wordlists by name (the default), size or hash.
    Duplicates { name: bool, size: bool, hash: bool },
    /// Tag management.
    Tag { action: TagSubcommands },
    /// Verify index integrity.
    Verify,
    /// Remove stale entries from the index.
    RemoveMissing,
    /// Configuration management.
    Config { subaction: ConfigSubcommands },
}

/// The tag subcommands.
#[derive(Clone, PartialEq, Eq, Debug)]
pub enum TagSubcommands {
    /// Attach a tag by hand to the wordlist with the given id.
    Add { id: i64, tag: String },
    /// Remove a tag from the wordlist with the given id.
    Rm { id: i64, tag: String },
}

/// The configuration subcommands.
#[derive(Clone, PartialEq, Eq, Debug)]
pub enum ConfigSubcommands {
    /// Add a directory to index.
    AddRepo { path: String },
    /// Remove a directory from the index.
    RemoveRepo { path: String },
    /// Show the repositories and where the index is kept.
    List,
}

} // verus!
