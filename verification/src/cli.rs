//! The tool's parsed command-line options, as plain values. Argument
//! parsing itself is an outer concern; this is the shape the core
//! dispatches on.

use vstd::prelude::*;

use crate::model::WordSize;

verus! {

/// The subcommand to run: convert the input file to a word size, writing
/// the result elsewhere, or dump every node of the input in key order.
pub enum Command {
    Convert { format: WordSize, output: String },
    Dump,
}

/// The tool's options: the input file, a repeatable verbosity switch, a
/// trace filter, and the subcommand.
pub struct Cli {
    pub input: String,
    pub verbose: u8,
    pub trace: String,
    pub command: Command,
}

impl Cli {
    /// The word size the run writes, if it writes one at all.
    pub fn target_word_size(&self) -> (r: Option<WordSize>)
        ensures
            r == (match self.command {
                Command::Convert { format, .. } => Some(format),
                Command::Dump => None::<WordSize>,
            }),
    {
        match &self.command {
            Command::Convert { format, .. } => Some(*format),
            Command::Dump => None,
        }
    }
}

} // verus!
