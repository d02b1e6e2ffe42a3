//! The commands of the tool, as plain values.
use vstd::prelude::*;
use crate::output_format::TableOutputFormat;

pub mod openai;

verus! {

/// How a report lays out its table.
#[derive(Debug, Clone, Copy, PartialEq, Eq)]
pub struct TableConfig {
    /// One block per record rather than a grid.
    pub as_records: bool,
}

impl TableConfig {
    /// The layout this configuration asks for.
    pub open spec fn format_spec(&self) -> TableOutputFormat {
        if self.as_records {
            TableOutputFormat::Records
        } else {
            TableOutputFormat::Table
        }
    }

    /// The layout this configuration asks for.
    pub fn format(&self) -> (r: TableOutputFormat)
        ensures
            r == self.format_spec(),
    {
        if self.as_records {
            TableOutputFormat::Records
        } else {
            TableOutputFormat::Table
        }
    }
}

/// The command line of the tool.
#[derive(Debug, Clone, PartialEq, Eq)]
pub struct Cli {
    /// The command to run.
    pub command: CliCommand,
}

/// The root of the commands.
#[derive(Debug, Clone, PartialEq, Eq)]
pub enum CliCommand {
    /// Commands of the OpenAI API.
    OpenAi(openai::Command),
}

} // verus!
