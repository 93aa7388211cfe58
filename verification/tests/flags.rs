use renvsubst::errors::ParseArgsError;
use renvsubst::flags::{Flag, Flags};

#[test]
fn test_set_success() {
    let mut flags = Flags::default();

    assert!(flags.set(Flag::NoEscape, "--no-escape", true).is_ok());
    assert_eq!(flags.get(Flag::NoEscape).and_then(|f| f.value), Some(true));
    assert!(flags
        .set(Flag::NoReplaceUnset, "--no-replace-unset", true)
        .is_ok());
    assert_eq!(
        flags.get(Flag::NoReplaceUnset).and_then(|f| f.value),
        Some(true)
    );

    assert!(flags
        .set(Flag::NoReplaceEmpty, "--no-replace-empty", true)
        .is_ok());
    assert_eq!(
        flags.get(Flag::NoReplaceEmpty).and_then(|f| f.value),
        Some(true)
    );
}

#[test]
fn test_set_duplicate_value() {
    let mut flags = Flags::default();
    flags.set(Flag::NoEscape, "--no-escape", true).unwrap();

    assert_eq!(
        flags.set(Flag::NoEscape, "--no-escape", true),
        Err(ParseArgsError::DuplicateFlag("--no-escape".to_string()))
    );
}

#[test]
fn test_set_conflicting_flags() {
    let mut flags = Flags::default();
    flags.set(Flag::Fail, "--fail", true).unwrap();

    assert_eq!(
        flags.set(Flag::FailOnUnset, "--fail-on-unset", true),
        Err(ParseArgsError::ConflictingFlags(
            "--fail-on-unset".to_string(),
            "--fail".to_string(),
        ))
    );

    assert_eq!(
        flags.set(Flag::FailOnEmpty, "--fail-on-empty", true),
        Err(ParseArgsError::ConflictingFlags(
            "--fail-on-empty".to_string(),
            "--fail".to_string(),
        ))
    );
}

#[test]
fn test_set_no_replace_and_related_flags() {
    let mut flags = Flags::default();

    flags.set(Flag::NoReplace, "--no-replace", true).unwrap();
    assert_eq!(
        flags.set(Flag::NoReplaceUnset, "--no-replace-unset", true),
        Err(ParseArgsError::ConflictingFlags(
            "--no-replace-unset".to_string(),
            "--no-replace".to_string(),
        ))
    );

    assert_eq!(
        flags.set(Flag::NoReplaceEmpty, "--no-replace-empty", true),
        Err(ParseArgsError::ConflictingFlags(
            "--no-replace-empty".to_string(),
            "--no-replace".to_string(),
        ))
    );
}

#[test]
fn test_get_defaults() {
    let flags = Flags::default();

    assert_eq!(flags.get(Flag::NoEscape).and_then(|f| f.value), None);
    assert_eq!(flags.get(Flag::NoReplaceUnset).and_then(|f| f.value), None);
    assert_eq!(flags.get(Flag::NoReplaceEmpty).and_then(|f| f.value), None);
    assert_eq!(flags.get(Flag::Fail).and_then(|f| f.value), None);
    assert_eq!(flags.get(Flag::FailOnUnset).and_then(|f| f.value), None);
    assert_eq!(flags.get(Flag::FailOnEmpty).and_then(|f| f.value), None);
    assert_eq!(flags.get(Flag::NoReplace).and_then(|f| f.value), None);
    assert_eq!(flags.get(Flag::Color).and_then(|f| f.value), None);
}

#[test]
fn test_fail_duplicate_long_long() {
    let mut flags = Flags::default();
    flags.set(Flag::Fail, "--fail", true).unwrap();

    assert_eq!(
        flags.set(Flag::Fail, "--fail", true),
        Err(ParseArgsError::DuplicateFlag("--fail".to_string(),))
    );
}

#[test]
fn test_fail_duplicate_long_short() {
    let mut flags = Flags::default();
    flags.set(Flag::Fail, "--fail", true).unwrap();

    assert_eq!(
        flags.set(Flag::Fail, "-f", true),
        Err(ParseArgsError::DuplicateFlag("-f".to_string(),))
    );
}

#[test]
fn test_fail_duplicate_short_long() {
    let mut flags = Flags::default();
    flags.set(Flag::Fail, "-f", true).unwrap();

    assert_eq!(
        flags.set(Flag::Fail, "--fail", true),
        Err(ParseArgsError::DuplicateFlag("--fail".to_string(),))
    );
}

#[test]
fn test_fail_fail_on_unset() {
    let mut flags = Flags::default();
    flags.set(Flag::Fail, "--fail", true).unwrap();

    assert_eq!(
        flags.set(Flag::FailOnUnset, "--fail-on-unset", true),
        Err(ParseArgsError::ConflictingFlags(
            "--fail-on-unset".to_string(),
            "--fail".to_string(),
        ))
    );
}

#[test]
fn test_fail_on_unset_fail() {
    let mut flags = Flags::default();
    flags
        .set(Flag::FailOnUnset, "--fail-on-unset", true)
        .unwrap();

    assert_eq!(
        flags.set(Flag::Fail, "--fail", true),
        Err(ParseArgsError::ConflictingFlags(
            "--fail".to_string(),
            "--fail-on-unset".to_string(),
        ))
    );
}

#[test]
fn test_fail_on_empty_fail() {
    let mut flags = Flags::default();
    flags
        .set(Flag::FailOnEmpty, "--fail-on-empty", true)
        .unwrap();

    assert_eq!(
        flags.set(Flag::Fail, "--fail", true),
        Err(ParseArgsError::ConflictingFlags(
            "--fail".to_string(),
            "--fail-on-empty".to_string(),
        ))
    );
}

#[test]
fn test_fail_fail_on_empty() {
    let mut flags = Flags::default();
    flags.set(Flag::Fail, "--fail", true).unwrap();

    assert_eq!(
        flags.set(Flag::FailOnEmpty, "--fail-on-empty", true),
        Err(ParseArgsError::ConflictingFlags(
            "--fail-on-empty".to_string(),
            "--fail".to_string(),
        ))
    );
}

#[test]
fn test_fail_on_unset_already_set() {
    let mut flags = Flags::default();
    flags
        .set(Flag::FailOnUnset, "--fail-on-unset", true)
        .unwrap();

    assert_eq!(
        flags.set(Flag::FailOnUnset, "--fail-on-unset", true),
        Err(ParseArgsError::DuplicateFlag("--fail-on-unset".to_string()))
    );
}

#[test]
fn test_fail_on_empty_conflict() {
    let mut flags = Flags::default();
    flags
        .set(Flag::FailOnEmpty, "--fail-on-empty", true)
        .unwrap();

    assert_eq!(
        flags.set(Flag::NoReplaceEmpty, "--no-replace-empty", true),
        Err(ParseArgsError::ConflictingFlags(
            "--no-replace-empty".to_string(),
            "--fail-on-empty".to_string(),
        ))
    );
}

#[test]
fn test_fail_on_empty_already_set() {
    let mut flags = Flags::default();
    flags
        .set(Flag::FailOnEmpty, "--fail-on-empty", true)
        .unwrap();

    assert_eq!(
        flags.set(Flag::FailOnEmpty, "--fail-on-empty", true),
        Err(ParseArgsError::DuplicateFlag("--fail-on-empty".to_string()))
    );
}

#[test]
fn test_flags_fail_fail_on_empty_conflict() {
    let mut flags = Flags::default();
    flags.set(Flag::Fail, "--fail", true).unwrap();

    assert_eq!(
        flags.set(Flag::FailOnEmpty, "--fail-on-empty", true),
        Err(ParseArgsError::ConflictingFlags(
            "--fail-on-empty".to_string(),
            "--fail".to_string(),
        ))
    );
}

#[test]
fn test_flags_fail_fail_on_unset_conflict() {
    let mut flags = Flags::default();
    flags.set(Flag::Fail, "--fail", true).unwrap();

    assert_eq!(
        flags.set(Flag::FailOnUnset, "--fail-on-unset", true),
        Err(ParseArgsError::ConflictingFlags(
            "--fail-on-unset".to_string(),
            "--fail".to_string(),
        ))
    );
}

#[test]
fn test_no_replace_empty_fail_on_empty_conflict_long_short() {
    let mut flags = Flags::default();
    flags
        .set(Flag::NoReplaceEmpty, "--no-replace-empty", true)
        .unwrap();

    assert_eq!(
        flags.set(Flag::FailOnEmpty, "-e", true),
        Err(ParseArgsError::ConflictingFlags(
            "-e".to_string(),
            "--no-replace-empty".to_string(),
        ))
    );
}

#[test]
fn test_no_replace_empty_fail_on_unset_conflict_short_short() {
    let mut flags = Flags::default();
    flags.set(Flag::Fail, "-f", true).unwrap();

    assert_eq!(
        flags.set(Flag::FailOnUnset, "-u", true),
        Err(ParseArgsError::ConflictingFlags(
            "-u".to_string(),
            "-f".to_string(),
        ))
    );
}

#[test]
fn test_no_replace_no_replace_unset() {
    let mut flags = Flags::default();
    flags.set(Flag::NoReplace, "--no-replace", true).unwrap();

    assert_eq!(
        flags.set(Flag::NoReplaceUnset, "--no-replace-unset", true),
        Err(ParseArgsError::ConflictingFlags(
            "--no-replace-unset".to_string(),
            "--no-replace".to_string(),
        ))
    );
}

#[test]
fn test_nore_replace_no_replace_empty() {
    let mut flags = Flags::default();
    flags.set(Flag::NoReplace, "--no-replace", true).unwrap();

    assert_eq!(
        flags.set(Flag::NoReplaceEmpty, "--no-replace-empty", true),
        Err(ParseArgsError::ConflictingFlags(
            "--no-replace-empty".to_string(),
            "--no-replace".to_string(),
        ))
    );
}

#[test]
fn test_no_replace_unset_duplicate() {
    let mut flags = Flags::default();
    flags
        .set(Flag::NoReplaceUnset, "--no-replace-unset", true)
        .unwrap();

    assert_eq!(
        flags.set(Flag::NoReplaceUnset, "--no-replace-unset", true),
        Err(ParseArgsError::DuplicateFlag(
            "--no-replace-unset".to_string()
        ))
    );
}

#[test]
fn test_no_replace_empty_duplicate() {
    let mut flags = Flags::default();
    flags
        .set(Flag::NoReplaceEmpty, "--no-replace-empty", true)
        .unwrap();

    assert_eq!(
        flags.set(Flag::NoReplaceEmpty, "--no-replace-empty", true),
        Err(ParseArgsError::DuplicateFlag(
            "--no-replace-empty".to_string()
        ))
    );
}

#[test]
fn test_no_replace_no_replace_empty() {
    let mut flags = Flags::default();
    flags.set(Flag::NoReplace, "--no-replace", true).unwrap();

    assert_eq!(
        flags.set(Flag::NoReplaceEmpty, "--no-replace-empty", true),
        Err(ParseArgsError::ConflictingFlags(
            "--no-replace-empty".to_string(),
            "--no-replace".to_string(),
        ))
    );
}

#[test]
fn test_no_replace_empty_no_replace() {
    let mut flags = Flags::default();
    flags
        .set(Flag::NoReplaceEmpty, "--no-replace-empty", true)
        .unwrap();

    assert_eq!(
        flags.set(Flag::NoReplace, "--no-replace", true),
        Err(ParseArgsError::ConflictingFlags(
            "--no-replace".to_string(),
            "--no-replace-empty".to_string(),
        ))
    );
}

#[test]
fn test_no_replace_unset_no_replace() {
    let mut flags = Flags::default();
    flags
        .set(Flag::NoReplaceUnset, "--no-replace-unset", true)
        .unwrap();

    assert_eq!(
        flags.set(Flag::NoReplace, "--no-replace", true),
        Err(ParseArgsError::ConflictingFlags(
            "--no-replace".to_string(),
            "--no-replace-unset".to_string(),
        ))
    );
}

#[test]
fn flags_test_no_replace_duplicate() {
    let mut flags = Flags::default();
    flags.set(Flag::NoReplace, "--no-replace", true).unwrap();

    assert_eq!(
        flags.set(Flag::NoReplace, "--no-replace", true),
        Err(ParseArgsError::DuplicateFlag("--no-replace".to_string()))
    );
}

#[test]
fn test_unbuffered_lines() {
    let mut flags = Flags::default();
    flags
        .set(Flag::UnbufferedLines, "--unbuffer-lines", true)
        .unwrap();

    assert_eq!(
        flags.set(Flag::UnbufferedLines, "--unbuffer-lines", true),
        Err(ParseArgsError::DuplicateFlag(
            "--unbuffer-lines".to_string()
        ))
    );
}

