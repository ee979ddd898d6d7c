//! Reference texts that the program prints as they stand.

use vstd::prelude::*;

verus! {

broadcast use vstd::string::group_string_axioms;

/// A reference text.
#[derive(Debug, Clone, Copy, PartialEq, Eq, Structural)]
pub enum Topic {
    /// How snippets are written.
    Syntax,
    /// A config file with every setting.
    Config,
}

/// What is printed for a topic: its reference text as it stands, of the two that
/// are handed in, or the topics there are.
pub fn run<'a>(topic: Option<Topic>, syntax: &'a str, config: &'a str) -> (out: &'a str)
    ensures
        out@ == (match topic {
            Some(Topic::Syntax) => syntax@,
            Some(Topic::Config) => config@,
            None => "syntax\nconfig\n"@,
        }),
{
    match topic {
        Some(Topic::Syntax) => syntax,
        Some(Topic::Config) => config,
        None => "syntax\nconfig\n",
    }
}

} // verus!
