use renvsubst::errors::ParseArgsError;

#[test]
fn test_unknown_flag_error() {
    let error = ParseArgsError::UnknownFlag(String::from("foo"));
    assert_eq!(error.to_string(), "Unknown flag: foo");
}

#[test]
fn test_missing_value_error() {
    let error = ParseArgsError::MissingValue(String::from("foo"));
    assert_eq!(error.to_string(), "Flag 'foo' requires a value!");
}

#[test]
fn test_conflicting_flags_error() {
    let error = ParseArgsError::ConflictingFlags(String::from("foo"), String::from("bar"));
    assert_eq!(
        error.to_string(),
        "Flags foo and bar cannot be used together!"
    );
}

#[test]
fn test_duplicate_value_error() {
    let error = ParseArgsError::DuplicateFlag(String::from("foo"));
    assert_eq!(
        error.to_string(),
        "Flag 'foo' cannot be specified more than once!"
    );
}

