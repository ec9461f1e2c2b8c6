//! The command line: what the user asked for, and what the tool does about it.
use vstd::prelude::*;

verus! {

/// The shell whose integration script is wanted.
#[derive(Debug, Clone, Copy, PartialEq, Eq, Structural)]
pub enum Shell {
    Bash,
    Zsh,
}

/// The order of a listing.
#[derive(Debug, Clone, Copy, PartialEq, Eq, Structural)]
pub enum SortOrder {
    Recent,
    Frequent,
}

/// A tool whose history could be imported.
#[derive(Debug, Clone, Copy, PartialEq, Eq, Structural)]
pub enum ImportSource {
    Zoxide,
    Autojump,
}

/// A subcommand.
#[derive(Debug)]
pub enum Command {
    /// Record a directory visit.
    Add { path: String },
    /// Go back `n` directories in history.
    Back { n: usize },
    /// Output shell integration code.
    Init { shell: Shell },
    /// Print the history.
    List { sort: SortOrder, limit: Option<usize>, json: bool },
    /// Remove a directory from history.
    Forget { path: String },
    /// Remove entries for directories that no longer exist.
    Clean,
    /// Show usage statistics.
    Stats,
    /// Import history from another tool.
    Import { source: ImportSource },
}

/// The parsed command line.
#[derive(Debug)]
pub struct Cli {
    pub command: Option<Command>,
    /// Pre-filled picker query.
    pub query: Option<String>,
    /// Most entries the picker shows.
    pub limit: Option<usize>,
    /// Print the picked path.
    pub print: bool,
    /// Custom database path.
    pub db: Option<String>,
    /// Print the path `n` steps back in history.
    pub print_back: Option<usize>,
}

/// Most entries `list` prints when no limit is given.
pub const DEFAULT_LIST_LIMIT: usize = 50;

/// Most entries the picker shows when no limit is given.
pub const DEFAULT_PICKER_LIMIT: usize = 500;

/// What the tool is to do.
#[derive(Debug)]
pub enum Action {
    Add { path: String },
    Back { n: usize },
    Init { shell: Shell },
    List { sort: SortOrder, limit: usize, json: bool },
    Forget { path: String },
    Clean,
    Stats,
    Import { source: ImportSource },
    Pick { limit: usize, query: Option<String>, print: bool },
}

pub open spec fn or_default(v: Option<usize>, d: usize) -> usize {
    match v {
        Some(x) => x,
        None => d,
    }
}

impl Cli {
    /// The action the command line asks for: the subcommand where there is
    /// one; else going back `n` steps where `--print-back n` was given; else
    /// the picker.
    pub fn action(self) -> (a: Action)
        ensures
            a == (match self.command {
                Some(Command::Add { path }) => Action::Add { path },
                Some(Command::Back { n }) => Action::Back { n },
                Some(Command::Init { shell }) => Action::Init { shell },
                Some(Command::List { sort, limit, json }) => Action::List {
                    sort,
                    limit: or_default(limit, DEFAULT_LIST_LIMIT),
                    json,
                },
                Some(Command::Forget { path }) => Action::Forget { path },
                Some(Command::Clean) => Action::Clean,
                Some(Command::Stats) => Action::Stats,
                Some(Command::Import { source }) => Action::Import { source },
                None => match self.print_back {
                    Some(n) => Action::Back { n },
                    None => Action::Pick {
                        limit: or_default(self.limit, DEFAULT_PICKER_LIMIT),
                        query: self.query,
                        print: self.print,
                    },
                },
            }),
    {
        match self.command {
            Some(Command::Add { path }) => Action::Add { path },
            Some(Command::Back { n }) => Action::Back { n },
            Some(Command::Init { shell }) => Action::Init { shell },
            Some(Command::List { sort, limit, json }) => {
                let limit = match limit {
                    Some(x) => x,
                    None => DEFAULT_LIST_LIMIT,
                };
                Action::List { sort, limit, json }
            },
            Some(Command::Forget { path }) => Action::Forget { path },
            Some(Command::Clean) => Action::Clean,
            Some(Command::Stats) => Action::Stats,
            Some(Command::Import { source }) => Action::Import { source },
            None => match self.print_back {
                Some(n) => Action::Back { n },
                None => {
                    let limit = match self.limit {
                        Some(x) => x,
                        None => DEFAULT_PICKER_LIMIT,
                    };
                    Action::Pick { limit, query: self.query, print: self.print }
                },
            },
        }
    }
}

} // verus!
