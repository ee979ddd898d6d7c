//! What the command line says: its help, what setting up starter snippets
//! reports, and what follows from a session.

use vstd::prelude::*;
use crate::completions::BINARY_NAME;
use crate::config::Paths;
use crate::execute::ExecutionOutcome;
use crate::frecency;
use crate::frecency::FrecencyStore;
use crate::text;

verus! {

broadcast use vstd::string::group_string_axioms;

/// The lines of the help on snippet roots.
pub open spec fn root_lines(roots: Seq<Seq<char>>) -> Seq<char>
    decreases roots.len(),
{
    if roots.len() == 0 {
        Seq::empty()
    } else {
        root_lines(roots.drop_last()) + "  "@ + roots.last() + "\n"@
    }
}

/// The help below the list of commands.
pub open spec fn help_of(roots: Seq<Seq<char>>, config_file: Seq<char>, state_file: Seq<char>) -> Seq<
    char,
> {
    HELP_HEAD@ + root_lines(roots) + "config file: "@ + config_file + "\nstate file: "@ + state_file
        + "\n"@
}

/// The start of the help.
pub const HELP_HEAD: &'static str =
    "shell integration: `peanutbutter completions bash|zsh|fish|powershell` also defines `pb`\nnew here? run `pb init` to scaffold starter snippets.\nreference: `pb docs syntax` or `pb docs config` prints the embedded spec to stdout.\n\nsnippet roots:\n";

/// The help below the list of commands: the shells, where to begin, and the
/// paths in use.
pub fn after_help(paths: &Paths) -> (help: String)
    ensures
        help@ == help_of(paths@.snippet_roots, paths@.config_file, paths@.state_file),
{
    let ghost roots = text::texts(paths.snippet_roots@);
    let mut out = HELP_HEAD.to_owned();
    let mut i: usize = 0;
    assert(roots.take(0) =~= Seq::<Seq<char>>::empty());
    assert(out@ =~= HELP_HEAD@ + root_lines(roots.take(0)));
    while i < paths.snippet_roots.len()
        invariant
            i <= paths.snippet_roots@.len(),
            roots == text::texts(paths.snippet_roots@),
            out@ == HELP_HEAD@ + root_lines(roots.take(i as int)),
        decreases paths.snippet_roots@.len() - i,
    {
        assert(roots.take(i + 1).drop_last() =~= roots.take(i as int));
        assert(roots.take(i + 1).last() == paths.snippet_roots@[i as int]@);
        out.append("  ");
        out.append(paths.snippet_roots[i].as_str());
        out.append("\n");
        assert(out@ =~= HELP_HEAD@ + root_lines(roots.take(i + 1)));
        i = i + 1;
    }
    assert(roots.take(roots.len() as int) =~= roots);
    out.append("config file: ");
    out.append(paths.config_file.as_str());
    out.append("\nstate file: ");
    out.append(paths.state_file.as_str());
    out.append("\n");
    out
}

/// Whether the starter snippets are written.
#[derive(Debug, Clone, Copy, PartialEq, Eq, Structural)]
pub enum InitStep {
    Write,
    Skip,
}

/// A file that is there is overwritten only where that is asked for.
pub fn init_step(exists: bool, force: bool) -> (step: InitStep)
    ensures
        step == (if exists && !force {
            InitStep::Skip
        } else {
            InitStep::Write
        }),
{
    if exists && !force {
        InitStep::Skip
    } else {
        InitStep::Write
    }
}

/// What setting up the starter snippets reports.
pub open spec fn init_text(step: InitStep, path: Seq<char>) -> Seq<char> {
    match step {
        InitStep::Write => "wrote "@ + path
            + "\nnext: pb new   |   pb edit   |   docs/SNIPPET_SYNTAX.md\n"@,
        InitStep::Skip => "snippets.md already exists at "@ + path
            + " (use --force to overwrite)\n"@,
    }
}

/// What setting up the starter snippets reports.
pub fn init_report(step: InitStep, path: &str) -> (report: String)
    ensures
        report@ == init_text(step, path@),
{
    match step {
        InitStep::Write => {
            let mut out = "wrote ".to_owned();
            out.append(path);
            out.append("\nnext: pb new   |   pb edit   |   docs/SNIPPET_SYNTAX.md\n");
            out
        },
        InitStep::Skip => {
            let mut out = "snippets.md already exists at ".to_owned();
            out.append(path);
            out.append(" (use --force to overwrite)\n");
            out
        },
    }
}

/// Whether snippet roots are set besides the default one.
pub fn overrides_active(path_variable_set: bool, paths: &Paths) -> (yes: bool)
    ensures
        yes == (path_variable_set || paths@.snippet_overrides_active),
{
    path_variable_set || paths.snippet_overrides_active
}

/// What is said besides, where snippet roots are set.
pub fn init_note(path_variable_set: bool, paths: &Paths) -> (note: Option<String>)
    ensures
        text::optional_text(note) == (if path_variable_set || paths@.snippet_overrides_active {
            Some(
                BINARY_NAME@
                    + ": note: snippet root overrides are set; init writes to the XDG default by design"@,
            )
        } else {
            None
        }),
{
    if overrides_active(path_variable_set, paths) {
        let mut out = BINARY_NAME.to_owned();
        out.append(
            ": note: snippet root overrides are set; init writes to the XDG default by design",
        );
        Some(out)
    } else {
        None
    }
}

/// How seeding the starter snippets before the first session went.
pub enum Seeding {
    Written(String),
    Skipped,
    Failed(String),
}

/// What is said of it: nothing, unless snippet roots are set or it failed.
pub open spec fn seeding_text(seeding: Seeding, overridden: bool) -> Option<Seq<char>> {
    match seeding {
        Seeding::Written(path) => if overridden {
            Some(
                BINARY_NAME@ + ": note: seeded starter snippets at "@ + path@
                    + "; snippet root overrides are active"@,
            )
        } else {
            None
        },
        Seeding::Skipped => None,
        Seeding::Failed(err) => Some(
            BINARY_NAME@ + ": warning: could not seed starter snippets: "@ + err@,
        ),
    }
}

/// What is said of seeding the starter snippets.
pub fn seeding_note(seeding: &Seeding, path_variable_set: bool, paths: &Paths) -> (note: Option<
    String,
>)
    ensures
        text::optional_text(note) == seeding_text(
            *seeding,
            path_variable_set || paths@.snippet_overrides_active,
        ),
{
    match seeding {
        Seeding::Written(path) => {
            if overrides_active(path_variable_set, paths) {
                let mut out = BINARY_NAME.to_owned();
                out.append(": note: seeded starter snippets at ");
                out.append(path.as_str());
                out.append("; snippet root overrides are active");
                Some(out)
            } else {
                None
            }
        },
        Seeding::Skipped => None,
        Seeding::Failed(err) => {
            let mut out = BINARY_NAME.to_owned();
            out.append(": warning: could not seed starter snippets: ");
            out.append(err.as_str());
            Some(out)
        },
    }
}

/// What came of a session.
#[derive(Debug, PartialEq, Eq)]
pub struct ExecuteCommandResult {
    /// Whether a command was written.
    pub emitted: bool,
    /// Why the use could not be saved, where it could not.
    pub persist_warning: Option<String>,
    /// Whether the command took in the shell's command line, so that the shell
    /// replaces the whole line.
    pub replace_buffer: bool,
}

/// What a session asks for: a text to write and, once that is written, a store
/// of uses to save.
pub struct Emission {
    pub output: String,
    pub store: FrecencyStore,
    pub replace_buffer: bool,
}

/// What a session asks for. The command goes out on a line of its own, and its
/// use is added to the store. A session that was left asks for nothing.
pub fn emission(
    outcome: Option<ExecutionOutcome>,
    store: FrecencyStore,
    cwd: String,
    now: u64,
) -> (emission: Option<Emission>)
    ensures
        match outcome {
            Some(o) => match emission {
                Some(e) => {
                    &&& e.output@ == o@.command + "\n"@
                    &&& e.store@ == store@.push(
                        frecency::EventView { id: o@.snippet_id, cwd: cwd@, timestamp: now },
                    )
                    &&& e.replace_buffer == o@.consumed_buffer
                },
                None => false,
            },
            None => emission is None,
        },
{
    match outcome {
        Some(o) => {
            let ExecutionOutcome { snippet_id, command, consumed_buffer } = o;
            let mut output = command;
            output.append("\n");
            let mut store = store;
            store.record(snippet_id, cwd, now);
            Some(Emission { output, store, replace_buffer: consumed_buffer })
        },
        None => None,
    }
}

impl Emission {
    /// The result once the text was written and saving was tried.
    pub fn finish(self, persist_warning: Option<String>) -> (result: ExecuteCommandResult)
        ensures
            result.emitted,
            result.persist_warning == persist_warning,
            result.replace_buffer == self.replace_buffer,
    {
        ExecuteCommandResult {
            emitted: true,
            persist_warning,
            replace_buffer: self.replace_buffer,
        }
    }
}

/// The result of a session that was left.
pub fn nothing_emitted() -> (result: ExecuteCommandResult)
    ensures
        !result.emitted,
        result.persist_warning is None,
        !result.replace_buffer,
{
    ExecuteCommandResult { emitted: false, persist_warning: None, replace_buffer: false }
}

} // verus!
