use mekle::completions::CompletionShell;

#[test]
fn every_script_defines_m_and_records_the_selected_directory() {
    for (shell, declaration) in [
        (CompletionShell::Bash, "m() {"),
        (CompletionShell::Elvish, "fn m {|@args|"),
        (CompletionShell::Fish, "function m"),
        (CompletionShell::Zsh, "function m() {"),
    ] {
        let script = shell.init();

        assert!(script.contains(declaration));
        assert!(script.contains("fzf"));
        assert!(script.contains("mekle add"));
        assert!(!script.contains("pf"));
    }
}

#[test]
fn completion_suffixes_scope_path_completion() {
    assert!(CompletionShell::Bash
        .completion_suffix()
        .contains("complete -F __mekle_complete -o nosort mekle"));
    assert!(CompletionShell::Bash
        .completion_suffix()
        .contains(r#""${COMP_WORDS[1]}" == "add" && ${COMP_CWORD} -eq 2"#));
    assert_eq!(
        CompletionShell::Fish.completion_suffix(),
        "complete -c mekle -n \"__fish_mekle_needs_command\" -f\n"
    );
    assert_eq!(CompletionShell::Elvish.completion_suffix(), "");
    assert_eq!(CompletionShell::Zsh.completion_suffix(), "");
}
