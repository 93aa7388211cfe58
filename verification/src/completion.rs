//! Shell completion scripts for the command line tool.

use crate::errors::{ArgsErrorView, ParseArgsError};
use crate::text::str_eq;
use vstd::prelude::*;

verus! {

/// The completion script that was asked for, if any.
#[derive(Debug)]
pub struct Completion {
    pub completion: Option<String>,
}

impl Default for Completion {
    /// No completion script.
    fn default() -> (r: Completion)
        ensures
            r.completion is None,
    {
        Completion { completion: None }
    }
}

impl Completion {
    /// Sets the completion script for the shell `completion_type`: `bash` or `zsh`.
    ///
    /// Errors with `InvalidCompletionType(completion_type)` for any other shell, and then
    /// leaves the completion unchanged.
    pub fn set(&mut self, completion_type: &str) -> (r: Result<(), ParseArgsError>)
        ensures
            completion_type@ == "bash"@ ==> r is Ok && (final(self).completion matches Some(c) && c@ == BASH_COMPLETION@),
            completion_type@ == "zsh"@ ==> r is Ok && (final(self).completion matches Some(c) && c@ == ZSH_COMPLETION@),
            completion_type@ != "bash"@ && completion_type@ != "zsh"@ ==> {
                &&& r matches Err(e) && e@ == ArgsErrorView::InvalidCompletionType(completion_type@)
                &&& *final(self) == *old(self)
            },
    {
        proof {
            reveal_strlit("bash");
            reveal_strlit("zsh");
            assert("bash"@ != "zsh"@) by {
                assert("bash"@.len() != "zsh"@.len());
            }
        }
        if str_eq(completion_type, "bash") {
            self.completion = Some(String::from_str(BASH_COMPLETION));
            Ok(())
        } else if str_eq(completion_type, "zsh") {
            self.completion = Some(String::from_str(ZSH_COMPLETION));
            Ok(())
        } else {
            Err(ParseArgsError::InvalidCompletionType(String::from_str(completion_type)))
        }
    }

    /// The completion script; there must be one.
    pub fn unwrap(&self) -> (r: &str)
        requires
            self.completion is Some,
        ensures
            r@ == self.completion->0@,
    {
        match &self.completion {
            Some(c) => c.as_str(),
            None => {
                // The precondition rules this case out.
                proof {
                    assert(false);
                }
                ""
            },
        }
    }
}

/// The completion script for bash.
pub const BASH_COMPLETION: &'static str = "#!/bin/bash

# Define the completion function
_parse_completion() {
    # Get the current word being completed
    local current_word=\"${COMP_WORDS[COMP_CWORD]}\"

    # Check if the current word is a flag that requires a value
    local flags_with_values=(
        \"--prefix\"
        \"-p\"
        \"--suffix\"
        \"-s\"
        \"--variable\"
        \"-v\"
    )
    for flag in \"${flags_with_values[@]}\"; do
        if [[ \"$flag\" == \"$current_word\"* ]]; then
            # Complete with files and directories
            COMPREPLY=( $(compgen -f -- \"$current_word\") )
            return 0
        fi
    done

    # Check if the current word is a flag
    local flags=(
        \"-h\"
        \"--help\"
        \"--version\"
        \"--fail-on-unset\"
        \"--fail-on-empty\"
        \"--fail\"
        \"--no-replace-unset\"
        \"--no-replace-empty\"
        \"--no-replace\"
        \"--no-escape\"
        \"-p\"
        \"--prefix\"
        \"-s\"
        \"--suffix\"
        \"-v\"
        \"--variable\"
    )
    for flag in \"${flags[@]}\"; do
        if [[ \"$flag\" == \"$current_word\"* ]]; then
            # Complete with the flag
            COMPREPLY=( \"$flag\" )
            return 0
        fi
    done

    # Otherwise, no completion
    COMPREPLY=()
    return 0
}

# Register the completion function
complete -F _parse_completion parse
";

/// The completion script for zsh.
pub const ZSH_COMPLETION: &'static str = "#compdef parse

# Define the completion function
_parse_completion() {
    # Get the current word being completed
    local current_word=${words[-1]}

    # Check if the current word is a flag that requires a value
    local flags_with_values=(
        \"--prefix\"
        \"-p\"
        \"--suffix\"
        \"-s\"
        \"--variable\"
        \"-v\"
    )
    if [[ \"${flags_with_values[@]}\" =~ \"${current_word}\" ]]; then
        # Complete with files and directories
        _files
        return
    fi

    # Check if the current word is a flag
    local flags=(
        \"-h\"
        \"--help\"
        \"--version\"
        \"--fail-on-unset\"
        \"--fail-on-empty\"
        \"--fail\"
        \"--no-replace-unset\"
        \"--no-replace-empty\"
        \"--no-replace\"
        \"--no-escape\"
        \"-p\"
        \"--prefix\"
        \"-s\"
        \"--suffix\"
        \"-v\"
        \"--variable\"
    )
    if [[ \"${flags[@]}\" =~ \"${current_word}\" ]]; then
        # Complete with the flag
        _describe -t options 'flag' $flags
        return
    fi

    # Otherwise, no completion
    return
}

# Register the completion function
compdef _parse_completion parse
";

} // verus!
