use renvsubst::args::Args;
use renvsubst::errors::ParseArgsError;
use renvsubst::filters::Filters;
use renvsubst::flags::Flag;
use renvsubst::io::IO;

#[test]
fn test_parse() {
    let args = vec!["--no-replace-empty", "--prefix", "prefix-"];
    let parsed_args = Args::parse(args).unwrap();

    assert_eq!(
        parsed_args
            .flags
            .get(Flag::NoReplaceEmpty)
            .and_then(|f| f.value),
        Some(true)
    );

    assert!(parsed_args.filters.prefixes.unwrap().contains("prefix-"),);
}

#[test]
fn test_parse_unknown_flag() {
    let args = vec!["--invalid-flag"];
    let parsed_args = Args::parse(args);

    assert!(parsed_args.is_err());
    assert_eq!(
        parsed_args.unwrap_err(),
        ParseArgsError::UnknownFlag("--invalid-flag".to_string())
    );
}

#[test]
fn test_parse_help_flag() {
    let args = vec!["-h"];
    let parsed_args = Args::parse(args).unwrap();

    assert!(parsed_args.help.is_some());
}

#[test]
fn test_parse_conflicting_flags() {
    let args = vec!["--fail-on-unset", "--no-replace-unset"];
    let parsed_args = Args::parse(args);

    assert!(parsed_args.is_err());
    assert_eq!(
        parsed_args.unwrap_err(),
        ParseArgsError::ConflictingFlags(
            "--no-replace-unset".to_string(),
            "--fail-on-unset".to_string(),
        )
    );
}

#[test]
fn test_parse_conflicting_flags2() {
    let args = vec!["--no-replace-unset", "--fail-on-unset"];
    let parsed_args = Args::parse(args);

    assert!(parsed_args.is_err());
    assert_eq!(
        parsed_args.unwrap_err(),
        ParseArgsError::ConflictingFlags(
            "--fail-on-unset".to_string(),
            "--no-replace-unset".to_string()
        )
    );
}

#[test]
fn test_parse_unbuffered_lines() {
    let args = vec!["--unbuffer-lines"];
    let parsed_args = Args::parse(args).unwrap();

    assert_eq!(
        parsed_args
            .flags
            .get(Flag::UnbufferedLines)
            .and_then(|f| f.value),
        Some(true)
    );
}

#[test]
fn test_parse_missing_value_prefix() {
    let args = vec!["--prefix"];
    let parsed_args = Args::parse(args);

    assert!(parsed_args.is_err());
    assert_eq!(
        parsed_args.unwrap_err(),
        ParseArgsError::MissingValue("--prefix".to_string())
    );
}

#[test]
fn test_parse_missing_value_suffix() {
    let args = vec!["--suffix"];
    let parsed_args = Args::parse(args);

    assert!(parsed_args.is_err());
    assert_eq!(
        parsed_args.unwrap_err(),
        ParseArgsError::MissingValue("--suffix".to_string())
    );
}

#[test]
fn test_parse_missing_value_variable() {
    let args = vec!["--variable"];
    let parsed_args = Args::parse(args);

    assert!(parsed_args.is_err());
    assert_eq!(
        parsed_args.unwrap_err(),
        ParseArgsError::MissingValue("--variable".to_string())
    );
}

#[test]
fn test_filters_new() {
    let filters = Filters::default();

    assert!(filters.prefixes.is_none());
    assert!(filters.suffixes.is_none());
    assert!(filters.variables.is_none());
}

#[test]
fn test_filters_prefix_space() {
    let args = vec!["--prefix", "prefix-", "--no-replace-empty"];
    let parsed_args = Args::parse(args).unwrap();

    assert!(parsed_args.filters.prefixes.unwrap().contains("prefix-"),);
}

#[test]
fn test_filters_prefix_equal() {
    let args = vec!["--prefix=prefix-"];
    let parsed_args = Args::parse(args).unwrap();

    assert!(parsed_args.filters.prefixes.unwrap().contains("prefix-"),);
}

#[test]
fn test_filters_multiple_same_prefix_equal() {
    let args = vec!["--prefix=prefix-", "--prefix=prefix-"];
    let parsed_args = Args::parse(args).unwrap();

    assert!(parsed_args.filters.prefixes.unwrap().contains("prefix-"),);
}

#[test]
fn test_filters_suffix_space() {
    let args = vec!["--suffix", "-suffix"];
    let parsed_args = Args::parse(args).unwrap();

    assert!(parsed_args.filters.suffixes.unwrap().contains("-suffix"),);
}

#[test]
fn test_filters_suffix_equal() {
    let args = vec!["--suffix=-suffix"];
    let parsed_args = Args::parse(args).unwrap();

    assert!(parsed_args.filters.suffixes.unwrap().contains("-suffix"),);
}

#[test]
fn test_filters_variable_space() {
    let args = vec!["--variable", "VAR"];
    let parsed_args = Args::parse(args).unwrap();

    assert!(parsed_args.filters.variables.unwrap().contains("VAR"));
}

#[test]
fn test_filters_variable_equal() {
    let args = vec!["--variable=VAR"];
    let parsed_args = Args::parse(args).unwrap();

    assert!(parsed_args.filters.variables.unwrap().contains("VAR"));
}

#[test]
fn test_flags_fail_fail_on_empty() {
    let args = vec!["--fail", "--fail-on-empty"];
    let parsed_args = Args::parse(args);

    assert!(parsed_args.is_err());
    assert_eq!(
        parsed_args.unwrap_err(),
        ParseArgsError::ConflictingFlags("--fail-on-empty".to_string(), "--fail".to_string())
    );
}

#[test]
fn test_flags_fail_fail_on_unset() {
    let args = vec!["--fail", "--fail-on-unset"];
    let parsed_args = Args::parse(args);

    assert!(parsed_args.is_err());
    assert_eq!(
        parsed_args.unwrap_err(),
        ParseArgsError::ConflictingFlags("--fail-on-unset".to_string(), "--fail".to_string())
    );
}

#[test]
fn test_flags_no_replace_no_replace_unset() {
    let args = vec!["--no-replace", "--no-replace-unset"];
    let parsed_args = Args::parse(args);

    assert!(parsed_args.is_err());
    assert_eq!(
        parsed_args.unwrap_err(),
        ParseArgsError::ConflictingFlags(
            "--no-replace-unset".to_string(),
            "--no-replace".to_string()
        )
    );
}

#[test]
fn test_flags_no_replace_no_replace_empty() {
    let args = vec!["--no-replace", "--no-replace-empty"];
    let parsed_args = Args::parse(args);

    assert!(parsed_args.is_err());
    assert_eq!(
        parsed_args.unwrap_err(),
        ParseArgsError::ConflictingFlags(
            "--no-replace-empty".to_string(),
            "--no-replace".to_string()
        )
    );
}

#[test]
fn test_version() {
    let args = vec!["--version"];
    let parsed_args = Args::parse(args);
    assert!(parsed_args.is_ok());
    assert!(parsed_args.unwrap().version.is_some());
}

#[test]
fn test_no_escape() {
    let args = vec!["--no-escape"];
    let parsed_args = Args::parse(args);
    assert!(parsed_args.is_ok());
    assert_eq!(
        parsed_args
            .unwrap()
            .flags
            .get(Flag::NoEscape)
            .and_then(|f| f.value),
        Some(true)
    );
}

#[test]
fn test_parse_prefix_equal() {
    let args = vec!["--prefix=prefix-"];
    let parsed_args = Args::parse(args);
    assert!(parsed_args.is_ok());
    assert!(parsed_args
        .unwrap()
        .filters
        .prefixes
        .unwrap()
        .contains("prefix-"));
}

#[test]
fn test_parse_prefix_space() {
    let args = vec!["--prefix", "prefix-"];
    let parsed_args = Args::parse(args);
    assert!(parsed_args.is_ok());
    assert!(parsed_args
        .unwrap()
        .filters
        .prefixes
        .unwrap()
        .contains("prefix-"));
}

#[test]
fn test_parse_prefix_multiple() {
    let args = vec!["--prefix", "prefix-", "--prefix", "prefix-"];
    let parsed_args = Args::parse(args);
    assert!(parsed_args.is_ok());
    assert!(parsed_args
        .unwrap()
        .filters
        .prefixes
        .unwrap()
        .contains("prefix-"));
}

#[test]
fn test_parse_suffix_equal() {
    let args = vec!["--suffix=-suffix"];
    let parsed_args = Args::parse(args);
    assert!(parsed_args.is_ok());
    assert!(parsed_args
        .unwrap()
        .filters
        .suffixes
        .unwrap()
        .contains("-suffix"));
}

#[test]
fn test_parse_suffix_space() {
    let args = vec!["--suffix", "-suffix"];
    let parsed_args = Args::parse(args);
    assert!(parsed_args.is_ok());
    assert!(parsed_args
        .unwrap()
        .filters
        .suffixes
        .unwrap()
        .contains("-suffix"));
}

#[test]
fn test_parse_suffix_multiple() {
    let args = vec!["--suffix", "-suffix", "--suffix", "-suffix"];
    let parsed_args = Args::parse(args);
    assert!(parsed_args.is_ok());
    assert!(parsed_args
        .unwrap()
        .filters
        .suffixes
        .unwrap()
        .contains("-suffix"));
}

#[test]
fn test_parse_variable_equal() {
    let args = vec!["--variable=VAR"];
    let parsed_args = Args::parse(args);
    assert!(parsed_args.is_ok());
    assert!(parsed_args
        .unwrap()
        .filters
        .variables
        .unwrap()
        .contains("VAR"));
}

#[test]
fn test_parse_variable_space() {
    let args = vec!["--variable", "VAR"];
    let parsed_args = Args::parse(args);
    assert!(parsed_args.is_ok());
    assert!(parsed_args
        .unwrap()
        .filters
        .variables
        .unwrap()
        .contains("VAR"));
}

#[test]
fn test_parse_variable_multiple() {
    let args = vec!["--variable", "VAR", "--variable", "VAR"];
    let parsed_args = Args::parse(args);
    assert!(parsed_args.is_ok());
    assert!(parsed_args
        .unwrap()
        .filters
        .variables
        .unwrap()
        .contains("VAR"));
}

#[test]
fn test_parse_variable_multiple_different() {
    let args = vec!["--variable", "VAR", "--variable", "VAR2"];
    let parsed_args = Args::parse(args);
    assert!(parsed_args.is_ok());

    let parsed_args = parsed_args.unwrap(); // Assign the unwrapped value to a variable
    let variables = &parsed_args.filters.variables.unwrap();

    assert!(variables.contains("VAR"));
    assert!(variables.contains("VAR2"));
}

#[test]
fn test_parse_variable_multiple_different_order() {
    let args = vec!["--variable", "VAR2", "--variable", "VAR"];
    let parsed_args = Args::parse(args);
    assert!(parsed_args.is_ok());

    let parsed_args = parsed_args.unwrap(); // Assign the unwrapped value to a variable
    let variables = &parsed_args.filters.variables.unwrap();

    assert!(variables.contains("VAR"));
    assert!(variables.contains("VAR2"));
}

#[test]
fn test_parse_prefix_arg() {
    let args = vec!["-p", "prefix_value"];
    let parsed_args = Args::parse(args).unwrap();
    assert!(parsed_args
        .filters
        .prefixes
        .unwrap()
        .contains("prefix_value"));
}

#[test]
fn test_parse_shorts_fail_unset_fail_empty() {
    let args = vec!["-uexb"];
    let parsed_args = Args::parse(args);
    let result = parsed_args.unwrap();
    assert_eq!(
        result.flags.get(Flag::FailOnUnset).and_then(|f| f.value),
        Some(true)
    );
    assert_eq!(
        result.flags.get(Flag::FailOnEmpty).and_then(|f| f.value),
        Some(true)
    );
    assert_eq!(
        result
            .flags
            .get(Flag::UnbufferedLines)
            .and_then(|f| f.value),
        Some(true)
    );
    assert_eq!(
        result.flags.get(Flag::NoEscape).and_then(|f| f.value),
        Some(true)
    );
}

#[test]
fn test_parse_shorts_long() {
    let args = vec!["-uex", "--unbuffer-lines"];
    let parsed_args = Args::parse(args);
    let result = parsed_args.unwrap();
    assert_eq!(
        result.flags.get(Flag::FailOnUnset).and_then(|f| f.value),
        Some(true)
    );
    assert_eq!(
        result.flags.get(Flag::FailOnEmpty).and_then(|f| f.value),
        Some(true)
    );
    assert_eq!(
        result
            .flags
            .get(Flag::UnbufferedLines)
            .and_then(|f| f.value),
        Some(true)
    );
    assert_eq!(
        result.flags.get(Flag::NoEscape).and_then(|f| f.value),
        Some(true)
    );
}

#[test]
fn test_parse_shorts_unwknown() {
    let args = vec!["-uen"];
    let parsed_args = Args::parse(args);
    assert!(parsed_args.is_err());
    assert_eq!(
        parsed_args.unwrap_err(),
        ParseArgsError::UnknownFlag("-n".to_string())
    );
}

#[test]
fn test_parse_shorts_conflict() {
    let args = vec!["-uef"];
    let parsed_args = Args::parse(args);
    assert!(parsed_args.is_err());
    assert_eq!(
        parsed_args.unwrap_err(),
        ParseArgsError::ConflictingFlags("-f".to_string(), "-u".to_string())
    );
}

#[test]
fn test_parse_shorts_long_mixed_conflict() {
    let args = vec!["-ue", "--fail"];
    let parsed_args = Args::parse(args);
    assert!(parsed_args.is_err());
    assert_eq!(
        parsed_args.unwrap_err(),
        ParseArgsError::ConflictingFlags("--fail".to_string(), "-u".to_string())
    );
}

#[test]
fn test_input_space() {
    let args = vec!["--input", "input_file"];
    let parsed_args = Args::parse(args).unwrap();
    assert_eq!(
        parsed_args.io.get(IO::Input),
        Some(&String::from("input_file")),
    );
}

#[test]
fn test_input_equal() {
    let args = vec!["--input=input_file"];
    let parsed_args = Args::parse(args).unwrap();
    assert_eq!(
        parsed_args.io.get(IO::Input),
        Some(&String::from("input_file")),
    );
}

#[test]
fn test_input_equal2() {
    let args = vec!["--input=-"];
    let parsed_args = Args::parse(args).unwrap();
    assert_eq!(parsed_args.io.get(IO::Input), Some(&String::from("-")),);
}

#[test]
fn test_input_equal_short() {
    let args = vec!["-i=input_file"];
    let parsed_args = Args::parse(args).unwrap();
    assert_eq!(
        parsed_args.io.get(IO::Input),
        Some(&String::from("input_file")),
    );
}

#[test]
fn test_input_equal_equal_in_value_short() {
    let args = vec!["-i=input=file.txt"];
    let parsed_args = Args::parse(args).unwrap();
    assert_eq!(
        parsed_args.io.get(IO::Input),
        Some(&String::from("input=file.txt")),
    );
}

#[test]
fn test_input_error() {
    let args = vec!["--input"];
    let parsed_args = Args::parse(args);
    assert!(parsed_args.is_err());
    assert_eq!(
        parsed_args.unwrap_err(),
        ParseArgsError::MissingValue("--input".to_string())
    );
}

#[test]
fn test_output_space() {
    let args = vec!["--output", "output_file"];
    let parsed_args = Args::parse(args).unwrap();
    assert_eq!(
        parsed_args.io.get(IO::Output),
        Some(&String::from("output_file")),
    );
}

#[test]
fn test_output_equal() {
    let args = vec!["--output=output_file"];
    let parsed_args = Args::parse(args).unwrap();
    assert_eq!(
        parsed_args.io.get(IO::Output),
        Some(&String::from("output_file")),
    );
}

#[test]
fn test_output_equal_short() {
    let args = vec!["-o=output_file"];
    let parsed_args = Args::parse(args).unwrap();
    assert_eq!(
        parsed_args.io.get(IO::Output),
        Some(&String::from("output_file")),
    );
}

#[test]
fn test_output_error() {
    let args = vec!["--output"];
    let parsed_args = Args::parse(args);
    assert!(parsed_args.is_err());
    assert_eq!(
        parsed_args.unwrap_err(),
        ParseArgsError::MissingValue("--output".to_string())
    );
}

#[test]
fn test_flags_conflict_short_long() {
    let args = vec!["-U", "--fail-on-unset"];
    let parsed_args = Args::parse(args);
    assert!(parsed_args.is_err());
    assert_eq!(
        parsed_args.unwrap_err(),
        ParseArgsError::ConflictingFlags("--fail-on-unset".to_string(), "-U".to_string())
    );
}

#[test]
fn test_flags_other_conflict_short_long() {
    let args = vec!["--unbuffer-lines", "-U", "--fail-on-unset"];
    let parsed_args = Args::parse(args);
    assert!(parsed_args.is_err());
    assert_eq!(
        parsed_args.unwrap_err(),
        ParseArgsError::ConflictingFlags("--fail-on-unset".to_string(), "-U".to_string())
    );
}

#[test]
fn test_flags_other_conflict_long_long() {
    let args = vec!["--unbuffer-lines", "--no-replace-unset", "--fail-on-unset"];
    let parsed_args = Args::parse(args);
    assert!(parsed_args.is_err());
    assert_eq!(
        parsed_args.unwrap_err(),
        ParseArgsError::ConflictingFlags(
            "--fail-on-unset".to_string(),
            "--no-replace-unset".to_string()
        )
    );
}

#[test]
fn args_test_no_replace_duplicate() {
    let args = vec!["--no-replace-unset", "--no-replace-unset"];
    let parsed_args = Args::parse(args);
    assert!(parsed_args.is_err());
    assert_eq!(
        parsed_args.unwrap_err(),
        ParseArgsError::DuplicateFlag("--no-replace-unset".to_string())
    );
}

#[test]
fn test_color() {
    let args = vec!["--color"];
    let parsed_args = Args::parse(args).unwrap();
    assert_eq!(
        parsed_args.flags.get(Flag::Color).and_then(|f| f.value),
        Some(true)
    );
}

