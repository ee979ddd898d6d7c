//! How the user's editor is called.

use vstd::prelude::*;
use crate::domain;
use crate::edit::target;
use crate::index::IndexedSnippet;
use crate::parser;
use crate::path;
use crate::text;

verus! {

broadcast use vstd::string::group_string_axioms;

/// A file to open, and a line in it, counted from one.
#[derive(Debug, PartialEq, Eq)]
pub struct EditorTarget {
    pub path: String,
    pub line: Option<usize>,
}

impl EditorTarget {
    /// A file.
    pub fn file(path: String) -> (target: EditorTarget)
        ensures
            target == (EditorTarget { path, line: None }),
    {
        EditorTarget { path, line: None }
    }

    /// A line of a file.
    pub fn line(path: String, line: usize) -> (target: EditorTarget)
        ensures
            target == (EditorTarget { path, line: Some(line) }),
    {
        EditorTarget { path, line: Some(line) }
    }
}

/// Where a snippet's heading stands in its file, counted from one.
pub open spec fn heading_line(relative_path: Seq<char>, content: Seq<char>, id: Seq<char>) -> Option<
    int,
> {
    match parser::range_of(parser::line_ranges(relative_path, content), id) {
        Some(range) => Some(range.start_line + 1),
        None => None,
    }
}

/// The file of a snippet at the line of its heading, or the file alone where
/// the text of the file does not hold the snippet.
pub fn target_for_snippet(snippet: &IndexedSnippet, content: &str) -> (target: EditorTarget)
    ensures
        target.path@ == snippet.path@,
        match target.line {
            Some(n) => heading_line(snippet.relative_path@, content@, snippet.snippet.id@) == Some(
                n as int,
            ),
            None => heading_line(snippet.relative_path@, content@, snippet.snippet.id@) is None,
        },
{
    EditorTarget {
        path: snippet.path.clone(),
        line: parser::snippet_line(
            snippet.relative_path.as_str(),
            content,
            &snippet.snippet.id,
        ),
    }
}

proof fn lemma_range_found(ranges: Seq<parser::RangeView>, id: Seq<char>, i: int) -> (k: int)
    requires
        0 <= i < ranges.len(),
        ranges[i].id == id,
    ensures
        0 <= k < ranges.len(),
        ranges[k].id == id,
        parser::range_of(ranges, id) == Some(ranges[k]),
    decreases ranges.len(),
{
    if ranges[0].id == id {
        0
    } else {
        lemma_range_found(ranges.skip(1), id, i - 1) + 1
    }
}

/// A snippet that was read from a file is opened at a heading of that file from
/// which the snippet has its id.
pub proof fn law_editor_opens_at_the_heading(
    relative_path: Seq<char>,
    content: Seq<char>,
    i: int,
) -> (line: int)
    requires
        0 <= i < parser::snippets_of(relative_path, content).len(),
    ensures
        ({
            let id = parser::snippets_of(relative_path, content)[i].id;
            let lines = text::lines_of(content);
            &&& heading_line(relative_path, content, id) == Some(line)
            &&& 1 <= line <= lines.len()
            &&& parser::heading_of(lines[line - 1]) matches Some(name) && domain::id_text(
                relative_path,
                parser::slug_text(name),
            ) == id
        }),
{
    let id = parser::snippets_of(relative_path, content)[i].id;
    let ranges = parser::line_ranges(relative_path, content);
    assert(ranges[i].id == id);
    let k = lemma_range_found(ranges, id, i);
    parser::law_sections_lie_in_the_file(content);
    parser::law_first_code_block_is_the_snippet(content, k);
    let section = parser::sections_of(content)[k];
    assert(ranges[k].start_line == section.start);
    section.start + 1
}

/// Whether a setting says something.
pub open spec fn is_set(value: Option<Seq<char>>) -> bool {
    value is Some && text::trim_of(value->0).len() > 0
}

/// The editor: the one asked for, then `$VISUAL`, then `$EDITOR`, so far as
/// these are set to more than white space.
pub open spec fn editor_of(
    wanted: Option<Seq<char>>,
    visual: Option<Seq<char>>,
    editor: Option<Seq<char>>,
) -> Result<Seq<char>, Seq<char>> {
    if wanted is Some {
        Ok(wanted->0)
    } else if is_set(visual) {
        Ok(visual->0)
    } else if is_set(editor) {
        Ok(editor->0)
    } else {
        Err("set $VISUAL or $EDITOR before using peanutbutter edit"@)
    }
}

fn filled(value: &Option<String>) -> (out: Option<String>)
    ensures
        text::optional_text(out) == (if is_set(text::optional_text(*value)) {
            text::optional_text(*value)
        } else {
            None
        }),
{
    match value {
        Some(v) => {
            let trimmed = text::trim(v.as_str());
            if trimmed.as_str().is_empty() {
                None
            } else {
                Some(v.clone())
            }
        },
        None => None,
    }
}

/// The editor, given the values of `$VISUAL` and `$EDITOR`.
pub fn resolve_editor(
    editor_override: Option<&str>,
    visual: &Option<String>,
    editor: &Option<String>,
) -> (found: Result<String, String>)
    ensures
        target::text_result(found) == editor_of(
            crate::config::str_view(editor_override),
            text::optional_text(*visual),
            text::optional_text(*editor),
        ),
{
    match editor_override {
        Some(e) => {
            return Ok(e.to_owned());
        },
        None => {},
    }
    match filled(visual) {
        Some(v) => {
            return Ok(v);
        },
        None => {},
    }
    match filled(editor) {
        Some(e) => {
            return Ok(e);
        },
        None => {},
    }
    Err("set $VISUAL or $EDITOR before using peanutbutter edit".to_owned())
}

/// Whether a character means something to a shell.
pub open spec fn is_shell_char(c: char) -> bool {
    text::is_white_space(c) || "'\"\\$;&|<>(){}[]*?!~`"@.contains(c)
}

fn shell_char(c: char) -> (yes: bool)
    ensures
        yes == is_shell_char(c),
{
    if text::white_space(c) {
        return true;
    }
    let marks = text::chars_of("'\"\\$;&|<>(){}[]*?!~`");
    let mut i: usize = 0;
    while i < marks.len()
        invariant
            i <= marks@.len(),
            marks@ == "'\"\\$;&|<>(){}[]*?!~`"@,
            forall|k: int| 0 <= k < i ==> marks@[k] != c,
        decreases marks@.len() - i,
    {
        if marks[i] == c {
            assert(marks@.contains(c));
            return true;
        }
        i = i + 1;
    }
    false
}

/// Whether a text means nothing to a shell.
pub open spec fn is_bare(s: Seq<char>) -> bool {
    s.len() > 0 && forall|i: int| 0 <= i < s.len() ==> !is_shell_char(#[trigger] s[i])
}

/// The name of an editor that is called without arguments of its own.
pub open spec fn bare_command(editor: Seq<char>) -> Option<Seq<char>> {
    let trimmed = text::trim_of(editor);
    if is_bare(trimmed) {
        path::file_name_of(trimmed)
    } else {
        None
    }
}

fn bare_editor_command(editor: &str) -> (name: Option<String>)
    ensures
        text::optional_text(name) == bare_command(editor@),
{
    let trimmed = text::trim(editor);
    let chars = text::chars_of(trimmed.as_str());
    if chars.len() == 0 {
        return None;
    }
    let mut i: usize = 0;
    while i < chars.len()
        invariant
            i <= chars@.len(),
            chars@ == trimmed@,
            trimmed@ == text::trim_of(editor@),
            forall|k: int| 0 <= k < i ==> !is_shell_char(#[trigger] chars@[k]),
        decreases chars@.len() - i,
    {
        if shell_char(chars[i]) {
            return None;
        }
        i = i + 1;
    }
    path::file_name(trimmed.as_str())
}

/// How an editor takes a line.
#[derive(Debug, Clone, Copy, PartialEq, Eq, Structural)]
pub enum LineStyle {
    /// `+12 file`
    Plus,
    /// `-g file:12`
    Goto,
    /// `file:12`
    Suffix,
}

/// How a known editor takes a line.
pub open spec fn line_style(command: Seq<char>) -> Option<LineStyle> {
    if command == "vi"@ || command == "vim"@ || command == "nvim"@ || command == "view"@ || command
        == "nano"@ || command == "micro"@ || command == "emacs"@ || command == "emacsclient"@ {
        Some(LineStyle::Plus)
    } else if command == "code"@ || command == "codium"@ || command == "code-insiders"@ {
        Some(LineStyle::Goto)
    } else if command == "hx"@ || command == "helix"@ {
        Some(LineStyle::Suffix)
    } else {
        None
    }
}

fn style_of(command: &str) -> (style: Option<LineStyle>)
    ensures
        style == line_style(command@),
{
    if text::same_text(command, "vi") || text::same_text(command, "vim") || text::same_text(
        command,
        "nvim",
    ) || text::same_text(command, "view") || text::same_text(command, "nano") || text::same_text(
        command,
        "micro",
    ) || text::same_text(command, "emacs") || text::same_text(command, "emacsclient") {
        Some(LineStyle::Plus)
    } else if text::same_text(command, "code") || text::same_text(command, "codium")
        || text::same_text(command, "code-insiders") {
        Some(LineStyle::Goto)
    } else if text::same_text(command, "hx") || text::same_text(command, "helix") {
        Some(LineStyle::Suffix)
    } else {
        None
    }
}

/// A text as one word of a shell.
pub open spec fn quoted(s: Seq<char>) -> Seq<char> {
    seq!['\''] + text::replace_char_of(s, '\'', "'\\''"@) + seq!['\'']
}

/// A text as one word of a shell.
pub fn shell_quote(value: &str) -> (out: String)
    ensures
        out@ == quoted(value@),
{
    let inner = text::replace_char(value, '\'', "'\\''");
    let mut out = String::new();
    out.push('\'');
    out.append(inner.as_str());
    out.push('\'');
    assert(out@ =~= quoted(value@));
    out
}

/// The arguments for an editor. A line is only given to an editor that is known
/// and called without arguments of its own.
pub open spec fn argument_words(editor: Seq<char>, file: Seq<char>, line: Option<usize>) -> Seq<
    Seq<char>,
> {
    let style = match bare_command(editor) {
        Some(command) => line_style(command),
        None => None,
    };
    match (line, style) {
        (Some(n), Some(LineStyle::Plus)) => seq![seq!['+'] + text::decimal(n as nat), file],
        (Some(n), Some(LineStyle::Goto)) => seq![
            "-g"@,
            file.push(':') + text::decimal(n as nat),
        ],
        (Some(n), Some(LineStyle::Suffix)) => seq![file.push(':') + text::decimal(n as nat)],
        _ => seq![file],
    }
}

/// The arguments for an editor, as words of a shell.
pub open spec fn arguments_of(editor: Seq<char>, file: Seq<char>, line: Option<usize>) -> Seq<char> {
    text::join_of(
        argument_words(editor, file, line).map_values(|word: Seq<char>| quoted(word)),
        " "@,
    )
}

/// The arguments for an editor, as words of a shell.
pub fn editor_args(editor: &str, target: &EditorTarget) -> (out: String)
    ensures
        out@ == arguments_of(editor@, target.path@, target.line),
{
    let ghost words = argument_words(editor@, target.path@, target.line);
    let style = match bare_editor_command(editor) {
        Some(command) => style_of(command.as_str()),
        None => None,
    };
    let mut list: Vec<String> = Vec::new();
    match target.line {
        Some(line) => {
            let number = text::decimal_text(line as u64);
            match style {
                Some(LineStyle::Plus) => {
                    let mut word = String::new();
                    word.push('+');
                    word.append(number.as_str());
                    assert(word@ =~= words[0]);
                    list.push(shell_quote(word.as_str()));
                    list.push(shell_quote(target.path.as_str()));
                },
                Some(LineStyle::Goto) => {
                    let mut word = target.path.clone();
                    word.push(':');
                    word.append(number.as_str());
                    list.push(shell_quote("-g"));
                    list.push(shell_quote(word.as_str()));
                },
                Some(LineStyle::Suffix) => {
                    let mut word = target.path.clone();
                    word.push(':');
                    word.append(number.as_str());
                    list.push(shell_quote(word.as_str()));
                },
                None => {
                    list.push(shell_quote(target.path.as_str()));
                },
            }
        },
        None => {
            list.push(shell_quote(target.path.as_str()));
        },
    }
    assert(text::texts(list@) =~= words.map_values(|word: Seq<char>| quoted(word)));
    text::join_texts(&list, " ")
}

/// What a shell reads back from a quoted word: quotes open and close, and a
/// backslash outside of quotes stands for the character behind it.
pub open spec fn unquoted(s: Seq<char>, inside: bool) -> Option<Seq<char>>
    decreases s.len(),
{
    if s.len() == 0 {
        if inside {
            None
        } else {
            Some(Seq::empty())
        }
    } else if s[0] == '\'' {
        unquoted(s.skip(1), !inside)
    } else if !inside && s[0] == '\\' {
        if s.len() < 2 {
            None
        } else {
            match unquoted(s.skip(2), inside) {
                Some(rest) => Some(seq![s[1]] + rest),
                None => None,
            }
        }
    } else {
        match unquoted(s.skip(1), inside) {
            Some(rest) => Some(seq![s[0]] + rest),
            None => None,
        }
    }
}

proof fn lemma_inner_reads_back(s: Seq<char>)
    ensures
        unquoted(text::replace_char_of(s, '\'', "'\\''"@).push('\''), true) == Some(s),
    decreases s.len(),
{
    reveal_strlit("'\\''");
    let inner = text::replace_char_of(s, '\'', "'\\''"@);
    if s.len() == 0 {
        assert(inner.push('\'') =~= seq!['\'']);
        reveal_with_fuel(unquoted, 3);
        assert(seq!['\''].skip(1) =~= Seq::<char>::empty());
        assert(s =~= Seq::<char>::empty());
    } else {
        let rest = s.skip(1);
        lemma_inner_reads_back(rest);
        lemma_replace_first(s);
        let tail = text::replace_char_of(rest, '\'', "'\\''"@).push('\'');
        let whole = inner.push('\'');
        if s[0] == '\'' {
            let front = "'\\''"@;
            assert(whole =~= front + tail);
            assert(whole.skip(1) =~= seq!['\\', '\'', '\''] + tail);
            let one = whole.skip(1);
            assert(one.skip(2) =~= seq!['\''] + tail);
            let two = one.skip(2);
            assert(two.skip(1) =~= tail);
            assert(unquoted(two, false) == unquoted(tail, true));
            assert(unquoted(one, false) == Some(seq!['\''] + rest));
            assert(unquoted(whole, true) == unquoted(one, false));
            assert(seq!['\''] + rest =~= s);
        } else {
            assert(whole =~= seq![s[0]] + tail);
            assert(whole.skip(1) =~= tail);
            assert(seq![s[0]] + rest =~= s);
        }
    }
}

/// Replacing goes from the front as well as from the back.
proof fn lemma_replace_first(s: Seq<char>)
    requires
        s.len() > 0,
    ensures
        text::replace_char_of(s, '\'', "'\\''"@) == (if s[0] == '\'' {
            "'\\''"@
        } else {
            seq![s[0]]
        }) + text::replace_char_of(s.skip(1), '\'', "'\\''"@),
    decreases s.len(),
{
    let to = "'\\''"@;
    if s.len() == 1 {
        reveal_with_fuel(text::replace_char_of, 2);
        assert(s.skip(1) =~= Seq::<char>::empty());
        assert(s.drop_last() =~= Seq::<char>::empty());
        assert(text::replace_char_of(s, '\'', to) =~= (if s[0] == '\'' {
            to
        } else {
            seq![s[0]]
        }) + text::replace_char_of(s.skip(1), '\'', to));
    } else {
        let front = s.drop_last();
        lemma_replace_first(front);
        assert(front.skip(1) =~= s.skip(1).drop_last());
        assert(s.skip(1).last() == s.last());
        assert(front[0] == s[0]);
        assert(text::replace_char_of(s, '\'', to) =~= (if s[0] == '\'' {
            to
        } else {
            seq![s[0]]
        }) + text::replace_char_of(s.skip(1), '\'', to));
    }
}

/// A shell reads a quoted word as the text that was quoted.
pub proof fn law_quoting_reads_back(s: Seq<char>)
    ensures
        unquoted(quoted(s), false) == Some(s),
{
    lemma_inner_reads_back(s);
    let inner = text::replace_char_of(s, '\'', "'\\''"@);
    assert(quoted(s).skip(1) =~= inner.push('\''));
}

/// The editor that was asked for comes first, then `$VISUAL`, then `$EDITOR`, where
/// a variable of blanks counts for nothing. Without any there is an error.
pub proof fn law_which_editor(
    wanted: Option<Seq<char>>,
    visual: Option<Seq<char>>,
    editor: Option<Seq<char>>,
)
    ensures
        ({
            let chosen = editor_of(wanted, visual, editor);
            let seen = visual is Some && text::trim_of(visual->0).len() > 0;
            let set = editor is Some && text::trim_of(editor->0).len() > 0;
            &&& wanted is Some ==> chosen == Ok::<Seq<char>, Seq<char>>(wanted->0)
            &&& wanted is None && seen ==> chosen == Ok::<Seq<char>, Seq<char>>(visual->0)
            &&& wanted is None && !seen && set ==> chosen == Ok::<Seq<char>, Seq<char>>(editor->0)
            &&& wanted is None && !seen && !set ==> chosen is Err
        }),
{
}

/// An editor is given the file, each word quoted. A line goes before the file behind
/// a plus sign, or behind the file and a colon, as the editor takes it; an editor
/// that is not known, or called with arguments of its own, gets no line.
pub proof fn law_editors_get_the_file(editor: Seq<char>, file: Seq<char>, n: usize)
    ensures
        argument_words(editor, file, None) == seq![file],
        bare_command(editor) is None ==> argument_words(editor, file, Some(n)) == seq![file],
        bare_command(editor) matches Some(command) ==> {
            let words = argument_words(editor, file, Some(n));
            let numbered = file + seq![':'] + text::decimal(n as nat);
            &&& line_style(command) is None ==> words == seq![file]
            &&& line_style(command) == Some(LineStyle::Plus) ==> words == seq![
                seq!['+'] + text::decimal(n as nat),
                file,
            ]
            &&& line_style(command) == Some(LineStyle::Goto) ==> words == seq!["-g"@, numbered]
            &&& line_style(command) == Some(LineStyle::Suffix) ==> words == seq![numbered]
        },
        arguments_of(editor, file, None) == quoted(file),
{
    assert(file.push(':') + text::decimal(n as nat) =~= file + seq![':'] + text::decimal(n as nat));
    let one = seq![file].map_values(|word: Seq<char>| quoted(word));
    assert(one =~= seq![quoted(file)]);
}

} // verus!
