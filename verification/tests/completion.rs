use renvsubst::completion::{Completion, BASH_COMPLETION, ZSH_COMPLETION};
use renvsubst::errors::ParseArgsError;

#[test]
fn test_set_bash_completion() {
    let mut completion = Completion::default();
    completion.set("bash").unwrap();
    assert_eq!(completion.completion, Some(BASH_COMPLETION.to_string()));
}

#[test]
fn test_set_zsh_completion() {
    let mut completion = Completion::default();
    completion.set("zsh").unwrap();
    assert_eq!(completion.completion, Some(ZSH_COMPLETION.to_string()));
}

#[test]
fn test_set_invalid_completion_type() {
    let mut completion = Completion::default();
    let result = completion.set("invalid");
    assert!(result.is_err());
    assert_eq!(
        result.unwrap_err(),
        ParseArgsError::InvalidCompletionType("invalid".to_string())
    );
}

#[test]
fn test_unwrap_completion() {
    let mut completion = Completion::default();
    completion.set("bash").unwrap();
    assert_eq!(completion.unwrap(), BASH_COMPLETION);
}

