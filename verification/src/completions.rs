//! The shells the program generates completions and integrations for, and
//! what it appends to the generated completion scripts.

use vstd::prelude::*;

verus! {

/// A shell with completion support.
#[derive(Clone, Copy, Debug, PartialEq, Eq, Structural)]
pub enum CompletionShell {
    Bash,
    Elvish,
    Fish,
    Zsh,
}

/// Turns off path completion before a subcommand in Fish.
pub const FISH_DISABLE_ROOT_PATH_COMPLETION: &'static str = "complete -c mekle -n \"__fish_mekle_needs_command\" -f\n";

/// Completes paths in Bash only where a subcommand takes a project path.
pub const BASH_SCOPE_PATH_COMPLETION: &'static str = r#"
__mekle_complete() {
    _mekle "$@"

    if [[ "${COMP_WORDS[1]}" == "add" && ${COMP_CWORD} -eq 2 ]] ||
       [[ "${COMP_WORDS[1]}" == "history" && ${COMP_CWORD} -eq 3 &&
          " show set adjust remove " == *" ${COMP_WORDS[2]} "* ]]; then
        COMPREPLY+=( $(compgen -f -- "${COMP_WORDS[COMP_CWORD]}") )
    fi
}

if [[ "${BASH_VERSINFO[0]}" -eq 4 && "${BASH_VERSINFO[1]}" -ge 4 || "${BASH_VERSINFO[0]}" -gt 4 ]]; then
    complete -F __mekle_complete -o nosort mekle
else
    complete -F __mekle_complete mekle
fi
"#;

impl CompletionShell {
    /// What follows the generated completion script for this shell: Bash
    /// scopes path completion, Fish turns it off before a subcommand, and
    /// Elvish and Zsh need nothing more.
    pub fn completion_suffix(self) -> (r: &'static str)
        ensures
            self == CompletionShell::Bash ==> r@ == BASH_SCOPE_PATH_COMPLETION@,
            self == CompletionShell::Fish ==> r@ == FISH_DISABLE_ROOT_PATH_COMPLETION@,
            self == CompletionShell::Elvish || self == CompletionShell::Zsh ==> r@.len() == 0,
    {
        match self {
            CompletionShell::Bash => BASH_SCOPE_PATH_COMPLETION,
            CompletionShell::Fish => FISH_DISABLE_ROOT_PATH_COMPLETION,
            CompletionShell::Elvish | CompletionShell::Zsh => {
                proof {
                    reveal_strlit("");
                }
                ""
            },
        }
    }
}

} // verus!
