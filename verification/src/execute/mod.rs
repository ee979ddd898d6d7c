//! Interactive snippet execution: picking a snippet, filling its variables and
//! what is shown on screen meanwhile.

use vstd::prelude::*;
use crate::domain::SnippetId;

pub mod tree_picker;
pub mod browse;
pub mod template;
pub mod suggestions;
pub mod prompt;
pub mod tags;
pub mod app;
pub mod highlight;
pub mod render;
pub mod terminal;

verus! {

/// The result of a session: the snippet that was chosen and its command with
/// every variable filled.
#[derive(Debug, PartialEq, Eq)]
pub struct ExecutionOutcome {
    /// The chosen snippet.
    pub snippet_id: SnippetId,
    /// The command.
    pub command: String,
    /// Whether the text of the shell's command line went into the command, so
    /// that the command replaces the line.
    pub consumed_buffer: bool,
}

/// What an [`ExecutionOutcome`] holds.
pub struct OutcomeView {
    pub snippet_id: Seq<char>,
    pub command: Seq<char>,
    pub consumed_buffer: bool,
}

impl View for ExecutionOutcome {
    type V = OutcomeView;

    open spec fn view(&self) -> OutcomeView {
        OutcomeView {
            snippet_id: self.snippet_id@,
            command: self.command@,
            consumed_buffer: self.consumed_buffer,
        }
    }
}

} // verus!
