//! Commands of the OpenAI API.
use vstd::prelude::*;

verus! {

/// Commands on assistants.
#[derive(Debug, Clone, PartialEq, Eq)]
pub enum AssistantsCommand {
    /// List the assistants.
    List { show_records_as_tables: bool },
}

/// Commands on files.
#[derive(Debug, Clone, PartialEq, Eq)]
pub enum FilesCommand {
    /// List the files.
    List { show_records_as_tables: bool },
}

/// Commands on runs.
#[derive(Debug, Clone, PartialEq, Eq)]
pub enum RunsCommand {
    /// List the runs of a thread.
    List { thread_id: String, show_records_as_tables: bool },
}

/// Commands of the OpenAI API.
#[derive(Debug, Clone, PartialEq, Eq)]
pub enum Command {
    /// Assistants.
    Assistants(AssistantsCommand),
    /// Files.
    Files(FilesCommand),
    /// Runs.
    Runs(RunsCommand),
}

} // verus!
