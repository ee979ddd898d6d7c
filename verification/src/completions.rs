//! Scripts that tie shells to this program: a key that runs the picker and puts
//! the command on the command line, completions, and a short name.

use vstd::prelude::*;
use crate::edit::editor;
use crate::edit::target;
use crate::text;

verus! {

broadcast use vstd::string::group_string_axioms;

/// The name of the program.
pub const BINARY_NAME: &'static str = "peanutbutter";

/// The short name that the scripts define.
pub const BASH_ALIAS_NAME: &'static str = "pb";

/// The exit code that asks the shell to replace its whole command line.
pub const REPLACE_BUFFER_EXIT_CODE: u8 = 10;

/// The shells that there are scripts for.
#[derive(Debug, Clone, Copy, PartialEq, Eq, Structural)]
pub enum Shell {
    Bash,
    Zsh,
    Fish,
    Powershell,
}

/// The script for bash. In the scripts `§` stands for the program, `¤` for the
/// key and `¶` for the exit code.
pub const BASH_SCRIPT: &'static str = r#"\builtin unalias pb &>/dev/null || \builtin true
__pb_dispatch() {
  if [[ "$1" == "new" ]]; then
    local __pb_hist
    __pb_hist=$(fc -lnr 1 50 2>/dev/null | sed 's/^\t//' | grep -Ev '^[[:space:]]*(pb|peanutbutter)([[:space:]]|$)' | awk 'BEGIN{total=0; max=65536} {len=length($0)+1; if (total+len>max) exit; total+=len; print}' | tr '\n' '\037')
    PEANUTBUTTER_HISTORY="$__pb_hist" command § "$@"
  else
    command § "$@"
  fi
}
pb() { __pb_dispatch "$@"; }
peanutbutter() { __pb_dispatch "$@"; }
__pb_insert_command() {
  local __pb_cmd
  __pb_cmd=$(PEANUTBUTTER_BUFFER="$READLINE_LINE" § execute)
  local __pb_status=$?
  if [[ $__pb_status -eq ¶ ]]; then
    READLINE_LINE="$__pb_cmd"
    READLINE_POINT=${#__pb_cmd}
    return 0
  fi
  if [[ $__pb_status -ne 0 ]]; then
    return $__pb_status
  fi
  if [[ -z $__pb_cmd ]]; then
    READLINE_LINE="${READLINE_LINE}"
    READLINE_POINT=${READLINE_POINT}
    return 0
  fi
  READLINE_LINE="${READLINE_LINE:0:$READLINE_POINT}${__pb_cmd}${READLINE_LINE:$READLINE_POINT}"
  READLINE_POINT=$(( READLINE_POINT + ${#__pb_cmd} ))
}
bind -x '"¤":__pb_insert_command'
__pb_complete() {
  local cur prev subcommand
  cur="${COMP_WORDS[COMP_CWORD]}"
  prev="${COMP_WORDS[COMP_CWORD-1]}"
  subcommand="${COMP_WORDS[1]}"
  if [[ "$prev" == "--theme" ]]; then
    COMPREPLY=( $(compgen -W "$(§ complete-theme "$cur")" -- "$cur") )
    return 0
  fi
  if [[ "$subcommand" == "edit" ]]; then
    COMPREPLY=()
    local candidate
    while IFS= read -r candidate; do
      COMPREPLY+=("$candidate")
    done < <(§ complete-edit "$cur")
    return 0
  fi
  if [[ "$subcommand" == "completions" ]]; then
    COMPREPLY=( $(compgen -W "bash zsh fish powershell" -- "$cur") )
    return 0
  fi
  COMPREPLY=( $(compgen -W "--theme execute init edit new completions lint gc stats settings lsp" -- "$cur") )
}
complete -o nospace -F __pb_complete peanutbutter pb
"#;

/// The script for zsh.
pub const ZSH_SCRIPT: &'static str = r#"\builtin unalias pb 2>/dev/null; \builtin true
__pb_dispatch() {
  if [[ "$1" == "new" ]]; then
    local __pb_hist
    __pb_hist=$(fc -lnr -50 2>/dev/null | sed 's/^\t//' | grep -Ev '^[[:space:]]*(pb|peanutbutter)([[:space:]]|$)' | awk 'BEGIN{total=0; max=65536} {len=length($0)+1; if (total+len>max) exit; total+=len; print}' | tr '\n' '\037')
    PEANUTBUTTER_HISTORY="$__pb_hist" command § "$@"
  else
    command § "$@"
  fi
}
pb() { __pb_dispatch "$@"; }
peanutbutter() { __pb_dispatch "$@"; }
__pb_insert_command() {
  local __pb_cmd
  __pb_cmd=$(PEANUTBUTTER_BUFFER="$BUFFER" § execute)
  local __pb_status=$?
  if (( __pb_status == ¶ )); then
    BUFFER="$__pb_cmd"
    CURSOR=${#__pb_cmd}
    zle reset-prompt
    return 0
  fi
  if (( __pb_status != 0 )); then
    zle reset-prompt
    return $__pb_status
  fi
  if [[ -z $__pb_cmd ]]; then
    zle reset-prompt
    return 0
  fi
  BUFFER="${BUFFER:0:$CURSOR}${__pb_cmd}${BUFFER:$CURSOR}"
  CURSOR=$(( CURSOR + ${#__pb_cmd} ))
  zle reset-prompt
}
zle -N __pb_insert_command
bindkey "¤" __pb_insert_command
_pb_complete() {
  if [[ "${words[CURRENT-1]}" == "--theme" ]]; then
    local -a candidates
    candidates=( ${(f)"$(§ complete-theme "${words[CURRENT]}")"} )
    compadd -- "${candidates[@]}"
  elif [[ "${words[2]}" == "edit" ]]; then
    local -a candidates
    candidates=( ${(f)"$(§ complete-edit "${words[CURRENT]}")"} )
    compadd -S '' -- "${candidates[@]}"
  elif [[ "${words[2]}" == "completions" ]]; then
    compadd -- bash zsh fish powershell
  else
    compadd -- --theme execute init edit new completions lint gc stats settings lsp
  fi
}
compdef _pb_complete peanutbutter pb
"#;

/// The script for fish.
pub const FISH_SCRIPT: &'static str = r#"function __pb_insert_command
  set -lx PEANUTBUTTER_BUFFER (commandline)
  set -l __pb_cmd (§ execute)
  set -l __pb_status $status
  if test $__pb_status -eq ¶
    commandline -r -- $__pb_cmd
  else if test $__pb_status -eq 0 -a -n "$__pb_cmd"
    commandline -i -- $__pb_cmd
  end
  commandline -f repaint
end
function __pb_complete_edit
  § complete-edit (commandline -ct)
end
function __pb_complete_theme
  § complete-theme (commandline -ct)
end
bind ¤ __pb_insert_command
function __pb_dispatch
  if test (count $argv) -gt 0; and test $argv[1] = "new"
    set -l __pb_hist (history --max=50 | string match -vr '^\s*(pb|peanutbutter)(\s|$)' | string join \x1f)
    set -lx PEANUTBUTTER_HISTORY $__pb_hist
    command § $argv
  else
    command § $argv
  end
end
function pb
  __pb_dispatch $argv
end
function peanutbutter
  __pb_dispatch $argv
end
complete -c peanutbutter -f -l theme -a '(__pb_complete_theme)'
complete -c peanutbutter -f -n 'not __fish_seen_subcommand_from execute init edit new completions lint gc stats settings lsp' -a 'execute init edit new completions lint gc stats settings lsp'
complete -c peanutbutter -f -n '__fish_seen_subcommand_from edit' -a '(__pb_complete_edit)'
complete -c peanutbutter -f -n '__fish_seen_subcommand_from completions' -a 'bash zsh fish powershell'
complete -c pb -w peanutbutter
"#;

/// The script for PowerShell.
pub const POWERSHELL_SCRIPT: &'static str = r#"$script:__pb_exe = §
function __pb_dispatch {
  if ($args.Count -gt 0 -and $args[0] -eq 'new') {
    $oldHistory = $env:PEANUTBUTTER_HISTORY
    $env:PEANUTBUTTER_HISTORY = (Get-History -Count 50 | Sort-Object Id -Descending | ForEach-Object CommandLine | Where-Object { $_ -notmatch '^\s*(pb|peanutbutter)(\s|$)' } | Select-Object -First 50) -join [char]31
    try { & $script:__pb_exe @args } finally {
      if ($null -eq $oldHistory) { Remove-Item Env:\PEANUTBUTTER_HISTORY -ErrorAction SilentlyContinue } else { $env:PEANUTBUTTER_HISTORY = $oldHistory }
    }
  } else {
    & $script:__pb_exe @args
  }
}
function pb { __pb_dispatch @args }
function peanutbutter { __pb_dispatch @args }
Set-PSReadLineKeyHandler -Chord '¤' -ScriptBlock {
  $cmd = (& $script:__pb_exe execute) -join [Environment]::NewLine
  if ($LASTEXITCODE -ne 0 -or [string]::IsNullOrEmpty($cmd)) { return }
  [Microsoft.PowerShell.PSConsoleReadLine]::Insert($cmd)
}
Register-ArgumentCompleter -CommandName peanutbutter,pb -ScriptBlock {
  param($wordToComplete, $commandAst, $cursorPosition)
  $words = @($commandAst.CommandElements | ForEach-Object { $_.Extent.Text })
  if ($words.Count -ge 2 -and ($words[$words.Count - 1] -eq '--theme' -or $words[$words.Count - 2] -eq '--theme')) {
    & $script:__pb_exe complete-theme $wordToComplete | ForEach-Object { [System.Management.Automation.CompletionResult]::new($_, $_, 'ParameterValue', $_) }
  } elseif ($words.Count -ge 2 -and $words[1] -eq 'edit') {
    & $script:__pb_exe complete-edit $wordToComplete | ForEach-Object { [System.Management.Automation.CompletionResult]::new($_, $_, 'ParameterValue', $_) }
  } elseif ($words.Count -ge 2 -and $words[1] -eq 'completions') {
    'bash','zsh','fish','powershell' | Where-Object { $_ -like "$wordToComplete*" } | ForEach-Object { [System.Management.Automation.CompletionResult]::new($_, $_, 'ParameterValue', $_) }
  } else {
    'execute','init','edit','new','completions','lint','gc','stats','settings','lsp','--theme' | Where-Object { $_ -like "$wordToComplete*" } | ForEach-Object { [System.Management.Automation.CompletionResult]::new($_, $_, 'ParameterValue', $_) }
  }
}
"#;

/// A script with its marks filled in.
pub open spec fn filled(script: Seq<char>, program: Seq<char>, key: Seq<char>) -> Seq<char>
    decreases script.len(),
{
    if script.len() == 0 {
        Seq::empty()
    } else {
        let before = filled(script.drop_last(), program, key);
        let c = script.last();
        if c == '§' {
            before + program
        } else if c == '¤' {
            before + key
        } else if c == '¶' {
            before + text::decimal(REPLACE_BUFFER_EXIT_CODE as nat)
        } else {
            before.push(c)
        }
    }
}

fn fill(script: &str, program: &str, key: &str) -> (out: String)
    ensures
        out@ == filled(script@, program@, key@),
{
    let chars = text::chars_of(script);
    let code = text::decimal_text(REPLACE_BUFFER_EXIT_CODE as u64);
    let mut out = String::new();
    let mut i: usize = 0;
    assert(chars@.take(0) =~= Seq::<char>::empty());
    while i < chars.len()
        invariant
            i <= chars@.len(),
            code@ == text::decimal(REPLACE_BUFFER_EXIT_CODE as nat),
            out@ == filled(chars@.take(i as int), program@, key@),
        decreases chars@.len() - i,
    {
        assert(chars@.take(i + 1).drop_last() =~= chars@.take(i as int));
        assert(chars@.take(i + 1).last() == chars@[i as int]);
        let c: char = chars[i];
        if c == '§' {
            out.append(program);
        } else if c == '¤' {
            out.append(key);
        } else if c == '¶' {
            out.append(code.as_str());
        } else {
            out.push(c);
        }
        i = i + 1;
    }
    assert(chars@.take(chars@.len() as int) =~= script@);
    out
}

/// The key behind a prefix for Ctrl, where there is exactly one.
pub open spec fn single_key(rest: Seq<char>) -> Result<char, Seq<char>> {
    if rest.len() == 0 {
        Err("binding is missing a key after the control prefix"@)
    } else if rest.len() > 1 {
        Err("only single-key control bindings are supported in v1"@)
    } else {
        Ok(rest[0])
    }
}

/// The key of a binding like `C+b`.
pub open spec fn ctrl_key(binding: Seq<char>) -> Result<char, Seq<char>> {
    let b = text::trim_of(binding);
    if "C+"@.is_prefix_of(b) {
        single_key(b.skip("C+"@.len() as int))
    } else if "C-"@.is_prefix_of(b) {
        single_key(b.skip("C-"@.len() as int))
    } else if "Ctrl+"@.is_prefix_of(b) {
        single_key(b.skip("Ctrl+"@.len() as int))
    } else if "Ctrl-"@.is_prefix_of(b) {
        single_key(b.skip("Ctrl-"@.len() as int))
    } else if "ctrl+"@.is_prefix_of(b) {
        single_key(b.skip("ctrl+"@.len() as int))
    } else if "ctrl-"@.is_prefix_of(b) {
        single_key(b.skip("ctrl-"@.len() as int))
    } else {
        Err("expected a control binding like C+b"@)
    }
}

fn one_key(rest: &str) -> (key: Result<char, String>)
    ensures
        key_result(key) == single_key(rest@),
{
    let chars = text::chars_of(rest);
    if chars.len() == 0 {
        Err("binding is missing a key after the control prefix".to_owned())
    } else if chars.len() > 1 {
        Err("only single-key control bindings are supported in v1".to_owned())
    } else {
        Ok(chars[0])
    }
}

/// A result with its error as text.
pub open spec fn key_result(key: Result<char, String>) -> Result<char, Seq<char>> {
    match key {
        Ok(c) => Ok(c),
        Err(e) => Err(e@),
    }
}

/// The key of a binding like `C+b`.
pub fn parse_ctrl_key(binding: &str) -> (key: Result<char, String>)
    ensures
        key_result(key) == ctrl_key(binding@),
{
    let trimmed = text::trim(binding);
    let b = trimmed.as_str();
    match text::strip_prefix_text(b, "C+") {
        Some(rest) => {
            return one_key(rest.as_str());
        },
        None => {},
    }
    match text::strip_prefix_text(b, "C-") {
        Some(rest) => {
            return one_key(rest.as_str());
        },
        None => {},
    }
    match text::strip_prefix_text(b, "Ctrl+") {
        Some(rest) => {
            return one_key(rest.as_str());
        },
        None => {},
    }
    match text::strip_prefix_text(b, "Ctrl-") {
        Some(rest) => {
            return one_key(rest.as_str());
        },
        None => {},
    }
    match text::strip_prefix_text(b, "ctrl+") {
        Some(rest) => {
            return one_key(rest.as_str());
        },
        None => {},
    }
    match text::strip_prefix_text(b, "ctrl-") {
        Some(rest) => {
            return one_key(rest.as_str());
        },
        None => {},
    }
    Err("expected a control binding like C+b".to_owned())
}

/// The ASCII letter `a` to `z` in upper case; any other character as it is.
pub open spec fn ascii_upper_char(c: char) -> char {
    if 'a' <= c <= 'z' {
        (c as u32 - 32) as char
    } else {
        c
    }
}

fn upper(c: char) -> (out: char)
    ensures
        out == ascii_upper_char(c),
{
    if 'a' <= c && c <= 'z' {
        (c as u8 - 32) as char
    } else {
        c
    }
}

fn lower(c: char) -> (out: char)
    ensures
        out == text::ascii_lower_char(c),
{
    if 'A' <= c && c <= 'Z' {
        (c as u8 + 32) as char
    } else {
        c
    }
}

/// A text with a character behind it.
fn with_char(front: &str, c: char) -> (out: String)
    ensures
        out@ == front@.push(c),
{
    let mut out = front.to_owned();
    out.push(c);
    out
}

/// How readline writes a key with Ctrl.
pub open spec fn readline_key(c: char) -> Seq<char> {
    "\\C-"@.push(text::ascii_lower_char(c))
}

/// How zsh writes a key with Ctrl.
pub open spec fn zsh_key(c: char) -> Seq<char> {
    "^"@.push(ascii_upper_char(c))
}

/// How fish writes a key with Ctrl.
pub open spec fn fish_key(c: char) -> Seq<char> {
    "\\c"@.push(text::ascii_lower_char(c))
}

/// How PowerShell writes a key with Ctrl.
pub open spec fn powershell_key(c: char) -> Seq<char> {
    "Ctrl+"@.push(text::ascii_lower_char(c))
}

/// A text as one word of PowerShell.
pub open spec fn powershell_quoted(s: Seq<char>) -> Seq<char> {
    seq!['\''] + text::replace_char_of(s, '\'', "''"@) + seq!['\'']
}

/// A text as one word of PowerShell.
pub fn powershell_quote(value: &str) -> (out: String)
    ensures
        out@ == powershell_quoted(value@),
{
    let inner = text::replace_char(value, '\'', "''");
    let mut out = String::new();
    out.push('\'');
    out.append(inner.as_str());
    out.push('\'');
    assert(out@ =~= powershell_quoted(value@));
    out
}

/// The script of a shell for a program and a key with Ctrl.
pub open spec fn script_for(shell: Shell, c: char, executable: Seq<char>) -> Seq<char> {
    match shell {
        Shell::Bash => filled(BASH_SCRIPT@, editor::quoted(executable), readline_key(c)),
        Shell::Zsh => filled(ZSH_SCRIPT@, editor::quoted(executable), zsh_key(c)),
        Shell::Fish => filled(FISH_SCRIPT@, editor::quoted(executable), fish_key(c)),
        Shell::Powershell => filled(
            POWERSHELL_SCRIPT@,
            powershell_quoted(executable),
            powershell_key(c),
        ),
    }
}

/// The script of a shell, or why the binding is none.
pub open spec fn integration(shell: Shell, binding: Seq<char>, executable: Seq<char>) -> Result<
    Seq<char>,
    Seq<char>,
> {
    match ctrl_key(binding) {
        Ok(c) => Ok(script_for(shell, c, executable)),
        Err(e) => Err(e),
    }
}

/// The script for bash.
pub fn bash_integration_script(binding: &str, executable: &str) -> (script: Result<String, String>)
    ensures
        target::text_result(script) == integration(Shell::Bash, binding@, executable@),
{
    let c = parse_ctrl_key(binding)?;
    let key = with_char("\\C-", lower(c));
    let program = editor::shell_quote(executable);
    Ok(fill(BASH_SCRIPT, program.as_str(), key.as_str()))
}

/// The script for zsh.
pub fn zsh_integration_script(binding: &str, executable: &str) -> (script: Result<String, String>)
    ensures
        target::text_result(script) == integration(Shell::Zsh, binding@, executable@),
{
    let c = parse_ctrl_key(binding)?;
    let key = with_char("^", upper(c));
    let program = editor::shell_quote(executable);
    Ok(fill(ZSH_SCRIPT, program.as_str(), key.as_str()))
}

/// The script for fish.
pub fn fish_integration_script(binding: &str, executable: &str) -> (script: Result<String, String>)
    ensures
        target::text_result(script) == integration(Shell::Fish, binding@, executable@),
{
    let c = parse_ctrl_key(binding)?;
    let key = with_char("\\c", lower(c));
    let program = editor::shell_quote(executable);
    Ok(fill(FISH_SCRIPT, program.as_str(), key.as_str()))
}

/// The script for PowerShell.
pub fn powershell_integration_script(binding: &str, executable: &str) -> (script: Result<
    String,
    String,
>)
    ensures
        target::text_result(script) == integration(Shell::Powershell, binding@, executable@),
{
    let c = parse_ctrl_key(binding)?;
    let key = with_char("Ctrl+", lower(c));
    let program = powershell_quote(executable);
    Ok(fill(POWERSHELL_SCRIPT, program.as_str(), key.as_str()))
}

/// The script of a shell.
pub fn integration_script(shell: Shell, binding: &str, executable: &str) -> (script: Result<
    String,
    String,
>)
    ensures
        target::text_result(script) == integration(shell, binding@, executable@),
{
    match shell {
        Shell::Bash => bash_integration_script(binding, executable),
        Shell::Zsh => zsh_integration_script(binding, executable),
        Shell::Fish => fish_integration_script(binding, executable),
        Shell::Powershell => powershell_integration_script(binding, executable),
    }
}

/// Which binding a shell accepts does not depend on the shell.
pub proof fn law_shells_accept_the_same_bindings(
    a: Shell,
    b: Shell,
    binding: Seq<char>,
    executable: Seq<char>,
)
    ensures
        integration(a, binding, executable) is Ok <==> integration(b, binding, executable) is Ok,
        integration(a, binding, executable) is Err ==> integration(a, binding, executable)
            == integration(b, binding, executable),
{
}

/// A script is filled in mark by mark: what stands around a mark stays.
pub proof fn law_marks_are_filled_in(
    a: Seq<char>,
    b: Seq<char>,
    program: Seq<char>,
    key: Seq<char>,
)
    ensures
        filled(a + b, program, key) == filled(a, program, key) + filled(b, program, key),
        filled(seq!['§'], program, key) == program,
        filled(seq!['¤'], program, key) == key,
        filled(seq!['¶'], program, key) == text::decimal(REPLACE_BUFFER_EXIT_CODE as nat),
        !a.contains('§') && !a.contains('¤') && !a.contains('¶') ==> filled(a, program, key) == a,
    decreases b.len(),
{
    let empty = Seq::<char>::empty();
    reveal_with_fuel(filled, 2);
    assert(seq!['§'].drop_last() =~= empty);
    assert(seq!['¤'].drop_last() =~= empty);
    assert(seq!['¶'].drop_last() =~= empty);
    assert(filled(seq!['§'], program, key) =~= program);
    assert(filled(seq!['¤'], program, key) =~= key);
    assert(filled(seq!['¶'], program, key) =~= text::decimal(REPLACE_BUFFER_EXIT_CODE as nat));
    lemma_plain_script(a, program, key);
    if b.len() > 0 {
        law_marks_are_filled_in(a, b.drop_last(), program, key);
        assert((a + b).drop_last() =~= a + b.drop_last());
        assert(filled(a + b, program, key) =~= filled(a, program, key) + filled(b, program, key));
    } else {
        assert(a + b =~= a);
        assert(filled(a, program, key) + filled(b, program, key) =~= filled(a, program, key));
    }
}

proof fn lemma_plain_script(a: Seq<char>, program: Seq<char>, key: Seq<char>)
    ensures
        !a.contains('§') && !a.contains('¤') && !a.contains('¶') ==> filled(a, program, key) == a,
    decreases a.len(),
{
    if a.len() > 0 {
        let front = a.drop_last();
        lemma_plain_script(front, program, key);
        assert(a.contains(a.last())) by {
            assert(a[a.len() - 1] == a.last());
        }
        assert forall|c: char| front.contains(c) implies a.contains(c) by {
            let k = front.index_of(c);
            assert(a[k] == c);
        }
        assert(front.push(a.last()) =~= a);
    } else {
        assert(filled(a, program, key) =~= a);
    }
}

/// A binding is a single key behind one of the ways to write the Ctrl key.
pub proof fn law_bindings(rest: Seq<char>)
    requires
        text::is_trimmed(rest),
    ensures
        rest.len() == 1 ==> ctrl_key("C+"@ + rest) == Ok::<char, Seq<char>>(rest[0]),
        rest.len() == 1 ==> ctrl_key("C-"@ + rest) == Ok::<char, Seq<char>>(rest[0]),
        rest.len() != 1 ==> ctrl_key("C+"@ + rest) is Err,
        rest.len() != 1 ==> ctrl_key("C-"@ + rest) is Err,
        rest.len() > 0 && rest[0] != 'C' && rest[0] != 'c' ==> ctrl_key(rest) is Err,
{
    reveal_strlit("C+");
    reveal_strlit("C-");
    reveal_strlit("Ctrl+");
    reveal_strlit("Ctrl-");
    reveal_strlit("ctrl+");
    reveal_strlit("ctrl-");
    let a = "C+"@ + rest;
    let b = "C-"@ + rest;
    assert(a[0] == 'C' && a[1] == '+');
    assert(b[0] == 'C' && b[1] == '-');
    text::law_trimmed_text_stays(a);
    text::law_trimmed_text_stays(b);
    text::law_trimmed_text_stays(rest);
    assert("C+"@.is_prefix_of(a));
    assert("C-"@.is_prefix_of(b));
    assert(a.skip(2) =~= rest);
    assert(b.skip(2) =~= rest);
    assert("C+"@[1] == '+');
    assert("C-"@[1] == '-');
    assert("C+"@[0] == 'C' && "C-"@[0] == 'C' && "Ctrl+"@[0] == 'C' && "Ctrl-"@[0] == 'C');
    assert("ctrl+"@[0] == 'c' && "ctrl-"@[0] == 'c');
}

/// A key with Ctrl is written with a small letter for all shells but zsh, which takes
/// a capital one.
pub proof fn law_letters_of_keys(c: char)
    ensures
        'a' <= c <= 'z' ==> readline_key(c).last() == c && fish_key(c).last() == c && powershell_key(
            c,
        ).last() == c && zsh_key(c).last() as u32 == c as u32 - 32,
        'A' <= c <= 'Z' ==> readline_key(c).last() as u32 == c as u32 + 32 && zsh_key(c).last() == c,
        readline_key(c).len() == "\\C-"@.len() + 1,
        zsh_key(c).len() == "^"@.len() + 1,
{
}

} // verus!
