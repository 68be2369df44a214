//! The commands and their arguments.

use vstd::prelude::*;

use crate::path;
use crate::path::FilePath;

verus! {

/// A command line.
#[derive(Debug)]
pub struct Cli {
    /// Music library root.
    pub server: Option<FilePath>,
    /// Show extra progress context.
    pub verbose: bool,
    pub command: Commands,
}

#[derive(Debug)]
pub enum Commands {
    /// Add tagged audio files to the library.
    Add(AddArgs),
    /// Remove duplicate tracks and redundant album directories.
    Dedupe(DedupeArgs),
    /// Repair the whole library in place.
    Repair(RepairArgs),
    /// Tag music files with derived metadata.
    Tag(TagCommand),
}

#[derive(Debug)]
pub struct TagCommand {
    pub target: TagTarget,
}

#[derive(Debug)]
pub enum TagTarget {
    /// Look up genres and tag matching files.
    Genre(TagArgs),
}

#[derive(Debug)]
pub struct AddArgs {
    /// Music library root.
    pub server: Option<FilePath>,
    /// Apply changes; the default is a dry run.
    pub apply: bool,
    /// Transcode every input with this profile before import.
    pub encoding: Option<EncodingProfile>,
    /// Import tracks as an album of unreleased ones.
    pub unreleased: bool,
    /// The artist of unreleased tracks.
    pub unreleased_artist: Option<String>,
    /// Files and directories to import.
    pub sources: Vec<FilePath>,
}

/// How inputs are transcoded.
#[derive(Debug, Clone, Copy, PartialEq, Eq)]
pub enum EncodingProfile {
    /// FLAC of 16 bits, at most two channels, 44.1 or 48 kHz, 100 seek points.
    SonosFlac,
}

#[derive(Debug)]
pub struct DedupeArgs {
    /// Music library root.
    pub server: Option<FilePath>,
    /// Apply changes; the default is a dry run.
    pub apply: bool,
}

#[derive(Debug)]
pub struct RepairArgs {
    /// Music library root.
    pub server: Option<FilePath>,
    /// Apply changes; the default is a dry run.
    pub apply: bool,
}

#[derive(Debug)]
pub struct TagArgs {
    /// Music library root.
    pub server: Option<FilePath>,
    /// Apply changes; the default is a dry run.
    pub apply: bool,
    /// Tag every file of the library.
    pub all: bool,
    /// Replace existing genres instead of skipping them.
    pub retag: bool,
    /// Files and directories to tag.
    pub sources: Vec<FilePath>,
}

/// The command that lacks the library root it needs.
#[derive(Debug, Clone, Copy, PartialEq, Eq)]
pub enum MissingServer {
    Add,
    Dedupe,
    Repair,
}

/// The library root that a command names for itself.
pub open spec fn named_server(command: Commands) -> Option<FilePath> {
    match command {
        Commands::Add(args) => args.server,
        Commands::Dedupe(args) => args.server,
        Commands::Repair(args) => args.server,
        Commands::Tag(_) => None,
    }
}

fn server_or(server: &Option<FilePath>, missing: MissingServer) -> (res: Result<
    Option<FilePath>,
    MissingServer,
>)
    ensures
        match res {
            Ok(found) => path::path_opt(found) == path::path_opt(*server) && found is Some,
            Err(error) => *server is None && error == missing,
        },
{
    match server {
        Some(server) => Ok(Some(server.clone())),
        None => Err(missing),
    }
}

/// The library root that a command works on. All commands but tagging need one.
pub fn required_server(command: &Commands) -> (res: Result<Option<FilePath>, MissingServer>)
    ensures
        match res {
            Ok(found) => path::path_opt(found) == path::path_opt(named_server(*command)) && (found
                is None ==> *command is Tag),
            Err(missing) => named_server(*command) is None && match *command {
                Commands::Add(_) => missing == MissingServer::Add,
                Commands::Dedupe(_) => missing == MissingServer::Dedupe,
                Commands::Repair(_) => missing == MissingServer::Repair,
                Commands::Tag(_) => false,
            },
        },
{
    match command {
        Commands::Add(args) => server_or(&args.server, MissingServer::Add),
        Commands::Dedupe(args) => server_or(&args.server, MissingServer::Dedupe),
        Commands::Repair(args) => server_or(&args.server, MissingServer::Repair),
        Commands::Tag(_) => Ok(None),
    }
}

/// Adding, removing duplicates and repairing each name their own library root.
pub proof fn law_commands_name_their_server(
    add: AddArgs,
    dedupe: DedupeArgs,
    repair: RepairArgs,
    tag: TagCommand,
)
    ensures
        named_server(Commands::Add(add)) == add.server,
        named_server(Commands::Dedupe(dedupe)) == dedupe.server,
        named_server(Commands::Repair(repair)) == repair.server,
        named_server(Commands::Tag(tag)) is None,
{
}

} // verus!
