//! Shell scripts.

use peanutbutter::completions::{
    bash_integration_script, fish_integration_script, integration_script, parse_ctrl_key,
    powershell_integration_script, powershell_quote, zsh_integration_script, Shell,
    REPLACE_BUFFER_EXIT_CODE,
};

#[test]
fn bash_script_uses_readline_bind_and_executable_path() {
    let script = bash_integration_script("C+b", "/tmp/peanutbutter").unwrap();
    assert!(script.contains("\\builtin unalias pb &>/dev/null || \\builtin true"));
    assert!(script.contains("pb() {"));
    assert!(script.contains("if [[ \"$1\" == \"new\" ]]"));
    assert!(script.contains("PEANUTBUTTER_HISTORY="));
    assert!(script.contains("command '/tmp/peanutbutter' \"$@\""));
    assert!(script.contains("bind -x '\"\\C-b\":__pb_insert_command'"));
    assert!(script.contains("'/tmp/peanutbutter' execute"));
    assert!(script.contains("READLINE_LINE=\"${READLINE_LINE}\""));
    assert!(script.contains("READLINE_POINT=${READLINE_POINT}"));
    // Buffer is passed as a one-shot command-prefix assignment (no bare
    // export that would leak into the interactive shell), and the replace
    // exit code drives a whole-line replacement.
    assert!(
        script.contains("PEANUTBUTTER_BUFFER=\"$READLINE_LINE\" '/tmp/peanutbutter' execute")
    );
    assert!(!script.contains("export PEANUTBUTTER_BUFFER"));
    assert!(script.contains(&format!(
        "if [[ $__pb_status -eq {REPLACE_BUFFER_EXIT_CODE} ]]"
    )));
    assert!(script.contains("READLINE_LINE=\"$__pb_cmd\""));
}

#[test]
fn bash_script_registers_edit_completion_for_binary_and_alias() {
    let script = bash_integration_script("C+b", "/tmp/peanutbutter").unwrap();
    assert!(script.contains("__pb_complete()"));
    assert!(script.contains("'/tmp/peanutbutter' complete-edit \"$cur\""));
    assert!(script.contains("complete -o nospace -F __pb_complete peanutbutter pb"));
}

#[test]
fn bash_script_completion_word_list_includes_all_shells() {
    let script = bash_integration_script("C+b", "/tmp/peanutbutter").unwrap();
    assert!(
        script.contains("--theme execute init edit new completions lint gc stats settings lsp")
    );
    assert!(script.contains("compgen -W \"bash zsh fish powershell\""));
    assert!(script.contains("complete-theme \"$cur\""));
    assert!(script.contains("--theme"));
}

#[test]
fn bash_script_uses_requested_binding() {
    let script = bash_integration_script("C+f", "/tmp/peanutbutter").unwrap();
    assert!(script.contains("bind -x '\"\\C-f\":__pb_insert_command'"));
}

#[test]
fn bash_script_rejects_invalid_binding() {
    assert!(bash_integration_script("notabinding", "/tmp/pb").is_err());
}

#[test]
fn zsh_script_registers_zle_widget_and_bindkey() {
    let script = zsh_integration_script("C+b", "/tmp/peanutbutter").unwrap();
    assert!(script.contains("zle -N __pb_insert_command"));
    assert!(script.contains("bindkey \"^B\" __pb_insert_command"));
    assert!(script.contains("'/tmp/peanutbutter' execute"));
    assert!(script.contains("BUFFER="));
    assert!(script.contains("CURSOR="));
    assert!(script.contains("PEANUTBUTTER_BUFFER=\"$BUFFER\" '/tmp/peanutbutter' execute"));
    assert!(!script.contains("export PEANUTBUTTER_BUFFER"));
    assert!(script.contains(&format!(
        "if (( __pb_status == {REPLACE_BUFFER_EXIT_CODE} ))"
    )));
    assert!(script.contains("BUFFER=\"$__pb_cmd\""));
}

#[test]
fn zsh_script_emits_pb_alias_and_compdef() {
    let script = zsh_integration_script("C+b", "/tmp/peanutbutter").unwrap();
    assert!(script.contains("pb() {"));
    assert!(script.contains("PEANUTBUTTER_HISTORY="));
    assert!(script.contains("command '/tmp/peanutbutter' \"$@\""));
    assert!(script.contains("compdef _pb_complete peanutbutter pb"));
    assert!(script.contains("'/tmp/peanutbutter' complete-edit"));
    assert!(script.contains("'/tmp/peanutbutter' complete-theme"));
    assert!(script.contains(
        "compadd -- --theme execute init edit new completions lint gc stats settings lsp"
    ));
}

#[test]
fn zsh_script_uses_requested_binding() {
    let script = zsh_integration_script("C+f", "/tmp/peanutbutter").unwrap();
    assert!(script.contains("bindkey \"^F\" __pb_insert_command"));
}

#[test]
fn zsh_script_rejects_invalid_binding() {
    assert!(zsh_integration_script("notabinding", "/tmp/pb").is_err());
}

#[test]
fn fish_script_registers_bind_and_commandline_insert() {
    let script = fish_integration_script("C+b", "/tmp/peanutbutter").unwrap();
    assert!(script.contains("bind \\cb __pb_insert_command"));
    assert!(script.contains("commandline -i -- $__pb_cmd"));
    assert!(script.contains("commandline -f repaint"));
    assert!(script.contains("'/tmp/peanutbutter' execute"));
    // Function-local export (`set -lx`) so the var does not persist after
    // the binding returns; replace path uses `commandline -r`.
    assert!(script.contains("set -lx PEANUTBUTTER_BUFFER (commandline)"));
    assert!(script.contains(&format!("test $__pb_status -eq {REPLACE_BUFFER_EXIT_CODE}")));
    assert!(script.contains("commandline -r -- $__pb_cmd"));
}

#[test]
fn fish_script_emits_pb_alias_and_completions() {
    let script = fish_integration_script("C+b", "/tmp/peanutbutter").unwrap();
    assert!(script.contains("function pb"));
    assert!(script.contains("PEANUTBUTTER_HISTORY"));
    assert!(script.contains("command '/tmp/peanutbutter' $argv"));
    assert!(script.contains("complete -c peanutbutter"));
    assert!(script.contains("complete -c pb -w peanutbutter"));
    // complete-edit is called from a helper function to avoid single-quote nesting
    assert!(script.contains("__pb_complete_edit"));
    assert!(script.contains("'/tmp/peanutbutter' complete-edit"));
    assert!(script.contains("__pb_complete_theme"));
    assert!(script.contains("complete -c peanutbutter -f -l theme"));
    assert!(
        script.contains("-a 'execute init edit new completions lint gc stats settings lsp'")
    );
}

#[test]
fn bash_pb_function_harvests_history_for_new() {
    let script = bash_integration_script("C+b", "/tmp/peanutbutter").unwrap();
    assert!(script.contains("__pb_dispatch()"));
    assert!(script.contains("pb() { __pb_dispatch \"$@\"; }"));
    assert!(script.contains("peanutbutter() { __pb_dispatch \"$@\"; }"));
    assert!(script.contains("$1\" == \"new\""));
    assert!(script.contains("fc -lnr 1 50"));
    assert!(script.contains("PEANUTBUTTER_HISTORY="));
    assert!(script.contains("\\037"));
}

#[test]
fn zsh_pb_function_harvests_history_for_new() {
    let script = zsh_integration_script("C+b", "/tmp/peanutbutter").unwrap();
    assert!(script.contains("__pb_dispatch()"));
    assert!(script.contains("pb() { __pb_dispatch \"$@\"; }"));
    assert!(script.contains("peanutbutter() { __pb_dispatch \"$@\"; }"));
    assert!(script.contains("$1\" == \"new\""));
    assert!(script.contains("fc -lnr -50"));
    assert!(script.contains("PEANUTBUTTER_HISTORY="));
}

#[test]
fn fish_pb_function_harvests_history_for_new() {
    let script = fish_integration_script("C+b", "/tmp/peanutbutter").unwrap();
    assert!(script.contains("function __pb_dispatch"));
    assert!(script.contains("function pb"));
    assert!(script.contains("function peanutbutter"));
    assert!(script.contains("history --max=50"));
    assert!(script.contains("PEANUTBUTTER_HISTORY"));
}

#[test]
fn fish_script_uses_requested_binding() {
    let script = fish_integration_script("C+f", "/tmp/peanutbutter").unwrap();
    assert!(script.contains("bind \\cf __pb_insert_command"));
}

#[test]
fn fish_script_rejects_invalid_binding() {
    assert!(fish_integration_script("notabinding", "/tmp/pb").is_err());
}

#[test]
fn powershell_script_registers_psreadline_insert_handler() {
    let script =
        powershell_integration_script("C+b", "C:/Tools/peanutbutter.exe").unwrap();
    assert!(script.contains("Set-PSReadLineKeyHandler -Chord 'Ctrl+b'"));
    assert!(script.contains("[Microsoft.PowerShell.PSConsoleReadLine]::Insert($cmd)"));
    assert!(script.contains("(& $script:__pb_exe execute) -join [Environment]::NewLine"));
    assert!(script.contains("$script:__pb_exe = 'C:/Tools/peanutbutter.exe'"));
}

#[test]
fn powershell_script_emits_pb_alias_history_and_completions() {
    let script = powershell_integration_script("C+b", "C:/pb.exe").unwrap();
    assert!(script.contains("function pb { __pb_dispatch @args }"));
    assert!(script.contains("function peanutbutter { __pb_dispatch @args }"));
    assert!(script.contains("Get-History -Count 50"));
    assert!(script.contains("PEANUTBUTTER_HISTORY"));
    assert!(script.contains("Register-ArgumentCompleter -CommandName peanutbutter,pb"));
    assert!(script.contains("complete-edit $wordToComplete"));
    assert!(script.contains("complete-theme $wordToComplete"));
    assert!(script.contains("'execute','init','edit','new','completions','lint','gc','stats','settings','lsp','--theme'"));
    assert!(script.contains("'bash','zsh','fish','powershell'"));
}

#[test]
fn powershell_script_uses_requested_binding() {
    let script = powershell_integration_script("C+f", "C:/pb.exe").unwrap();
    assert!(script.contains("Set-PSReadLineKeyHandler -Chord 'Ctrl+f'"));
}

#[test]
fn powershell_script_rejects_invalid_binding() {
    assert!(powershell_integration_script("notabinding", "C:/pb.exe").is_err());
}
#[test]
fn the_shell_picks_the_script() {
    for shell in [Shell::Bash, Shell::Zsh, Shell::Fish, Shell::Powershell] {
        let script = integration_script(shell, "C+b", "/tmp/pb").unwrap();
        let same = match shell {
            Shell::Bash => bash_integration_script("C+b", "/tmp/pb"),
            Shell::Zsh => zsh_integration_script("C+b", "/tmp/pb"),
            Shell::Fish => fish_integration_script("C+b", "/tmp/pb"),
            Shell::Powershell => powershell_integration_script("C+b", "/tmp/pb"),
        };
        assert_eq!(Ok(script), same);
        assert!(integration_script(shell, "notabinding", "/tmp/pb").is_err());
    }
}

#[test]
fn control_keys_are_letters() {
    assert_eq!(parse_ctrl_key("C+b"), Ok('b'));
    assert_eq!(parse_ctrl_key("C+B"), Ok('B'));
    assert!(parse_ctrl_key("C+").is_err());
    assert!(parse_ctrl_key("C+bb").is_err());
    assert!(parse_ctrl_key("M+b").is_err());
}

#[test]
fn powershell_quotes_are_doubled() {
    assert_eq!(powershell_quote("C:/it's/pb.exe"), "'C:/it''s/pb.exe'");
}

#[test]
fn script_paths_are_quoted() {
    let script = bash_integration_script("C+b", "/tmp/it's/pb").unwrap();
    assert!(script.contains("command '/tmp/it'\\''s/pb' \"$@\""));
}
