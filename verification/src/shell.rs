//! The shell integration that defines the `m` function: list projects in
//! `fzf`, change to the selected directory, and record the visit.

use crate::completions::CompletionShell;
use vstd::prelude::*;

verus! {

/// The Bash integration.
pub const BASH: &'static str = r#"m() {
    local dir
    dir="$(command mekle "$@" | fzf)" || return
    [[ -n "$dir" ]] || return
    if [[ "$dir" == "~" || "$dir" == "~/"* ]]; then
        dir="${HOME}${dir#\~}"
    fi
    cd -- "$dir" || return
    command mekle add "$PWD"
}
"#;

/// The Elvish integration.
pub const ELVISH: &'static str = r"use re

fn m {|@args|
    var dir = (e:mekle $@args | e:fzf)
    if (eq $dir '') { return }
    if (re:match '^~(/|$)' $dir) {
        set dir = (re:replace '^~' $E:HOME $dir)
    }
    cd $dir
    e:mekle add $pwd
}
";

/// The Fish integration.
pub const FISH: &'static str = r#"function m
    set -l dir (command mekle $argv | fzf)
    or return
    test -n "$dir"
    or return
    if string match -qr '^~(/|$)' -- "$dir"
        set dir (string replace -r '^~' "$HOME" -- "$dir")
    end
    cd -- "$dir"
    or return
    command mekle add "$PWD"
end
"#;

/// The Zsh integration.
pub const ZSH: &'static str = r#"function m() {
    local dir
    dir="$(command mekle "$@" | fzf)" || return
    [[ -n "$dir" ]] || return
    if [[ "$dir" == "~" || "$dir" == "~/"* ]]; then
        dir="${HOME}${dir#\~}"
    fi
    builtin cd -- "$dir" || return
    command mekle add "$PWD"
}
"#;

impl CompletionShell {
    /// The shell integration script that defines `m`.
    pub fn init(self) -> (r: &'static str)
        ensures
            r@ == match self {
                CompletionShell::Bash => BASH@,
                CompletionShell::Elvish => ELVISH@,
                CompletionShell::Fish => FISH@,
                CompletionShell::Zsh => ZSH@,
            },
    {
        match self {
            CompletionShell::Bash => BASH,
            CompletionShell::Elvish => ELVISH,
            CompletionShell::Fish => FISH,
            CompletionShell::Zsh => ZSH,
        }
    }
}

} // verus!
