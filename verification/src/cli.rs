//! Command-line surface of the tool: the parsed invocation and the rules
//! that fill in its defaults.

use vstd::prelude::*;

verus! {

/// Options of one invocation: the root path the operation is anchored at
/// (`None` means the current directory) and the optional whitelist of file
/// extensions, both as byte strings.
pub struct Options {
    pub path: Option<Vec<u8>>,
    pub extensions: Option<Vec<Vec<u8>>>,
}

/// The two operations of the tool.
pub enum AppCommand {
    /// Walk the tree under the root and combine the files into one blob.
    Aggregate { options: Options },
    /// Parse a blob and write its records back under the root.
    Distribute { options: Options },
}

/// A parsed command line: the chosen subcommand, if one was given.
pub struct Cli {
    pub command: Option<AppCommand>,
}

/// The options every invocation starts from: current directory as the
/// root, no extension filter.
pub fn default_options() -> (r: Options)
    ensures
        r.path == None::<Vec<u8>>,
        r.extensions == None::<Vec<Vec<u8>>>,
{
    Options { path: None, extensions: None }
}

/// The command an invocation runs: the one given on the command line, or
/// aggregation with default options when none was.
pub fn effective_command(cli: Cli) -> (r: AppCommand)
    ensures
        match cli.command {
            Some(c) => r == c,
            None => r == (AppCommand::Aggregate {
                options: Options { path: None, extensions: None },
            }),
        },
{
    match cli.command {
        Some(c) => c,
        None => AppCommand::Aggregate { options: default_options() },
    }
}

/// The extension whitelist in force: the one given, or the empty list,
/// which admits every file.
pub fn effective_extensions(extensions: Option<Vec<Vec<u8>>>) -> (r: Vec<Vec<u8>>)
    ensures
        match extensions {
            Some(e) => r == e,
            None => r@.len() == 0,
        },
{
    match extensions {
        Some(e) => e,
        None => Vec::new(),
    }
}

} // verus!
