use colored::{Color, Colorize};
use renvsubst::env_subst::{read_lines, replace_vars_in_line};
use renvsubst::environment::Environment;
use renvsubst::filters::{Filter, Filters};
use renvsubst::flags::{Flag, Flags};

#[test]
fn test_read_lines_unix_endings() {
    // Test Unix line endings
    let input = "Hello $WORLD!\nHello $WORLD!\nHello $WORLD!\n";
    let expected = vec!["Hello $WORLD!\n", "Hello $WORLD!\n", "Hello $WORLD!\n"];
    let lines = read_lines(input.as_bytes());
    for (i, line_result) in lines.into_iter().enumerate() {
        let line = line_result.unwrap();
        assert_eq!(line, expected[i]);
    }
}

#[test]
fn test_read_lines_windows_endings() {
    // Test Windows line endings
    let input = "Hello $WORLD!\r\nHello $WORLD!\r\nHello $WORLD!\r\n";
    let expected = vec![
        "Hello $WORLD!\r\n",
        "Hello $WORLD!\r\n",
        "Hello $WORLD!\r\n",
    ];
    let lines = read_lines(input.as_bytes());
    for (i, line_result) in lines.into_iter().enumerate() {
        let line = line_result.unwrap();
        assert_eq!(line, expected[i]);
    }
}

#[test]
fn test_read_lines_emojis() {
    // Test Emojis
    let input = "Hello 😃 World!\nHello 😃 World!\nHello 😃 World!\n";
    let expected = vec![
        "Hello 😃 World!\n",
        "Hello 😃 World!\n",
        "Hello 😃 World!\n",
    ];
    let lines = read_lines(input.as_bytes());
    for (i, line_result) in lines.into_iter().enumerate() {
        let line = line_result.unwrap();
        assert_eq!(line, expected[i]);
    }
}

#[test]
fn test_read_lines_error() {
    let input = b"Hello \xF0 World!";
    let mut lines = read_lines(&input[..]).into_iter();
    let result = lines.next();
    assert!(result.is_some());
    assert!(result.unwrap().is_err());
}

#[test]
fn test_replace_vars_in_line() {
    let mut env = Environment::new();
    let flags = Flags::default();
    let filters = Filters::default();
    env.set("VAR", "value");
    env.set("ANOTHER_VAR", "another_value");

    // Test character after dollar sign is invalid escaped
    let line = "this is a test line with invalid character after dollar sign $$1";
    let result = replace_vars_in_line(line, &flags, &filters, &env);
    assert_eq!(
        result.unwrap(),
        "this is a test line with invalid character after dollar sign $$1"
    );

    // Test character after dollar sign is invalid
    let line = "this is a test line with invalid character after dollar sign $1";
    let result = replace_vars_in_line(line, &flags, &filters, &env);
    assert_eq!(
        result.unwrap(),
        "this is a test line with invalid character after dollar sign $1"
    );

    // Test variable with double dollar sign at the end
    let line = "this is a test line with two dollar sign at the end of line $$";
    let result = replace_vars_in_line(line, &flags, &filters, &env);
    assert_eq!(
        result.unwrap(),
        "this is a test line with two dollar sign at the end of line $$"
    );

    // Test dollar sign at the end
    let line = "This is a dollar sign at the end: $";
    let result = replace_vars_in_line(line, &flags, &filters, &env);
    assert_eq!(result.unwrap(), "This is a dollar sign at the end: $");

    // Test basic variable replacement
    let line = "This is a $VAR.";
    let result = replace_vars_in_line(line, &flags, &filters, &env);
    assert_eq!(result.unwrap(), "This is a value.");

    // Test two variables in the same line
    let line = "$VAR and $ANOTHER_VAR";
    let result = replace_vars_in_line(line, &flags, &filters, &env);
    assert_eq!(result.unwrap(), "value and another_value");

    // Test escaped variable
    let line = "This is an escaped variable: $$VAR";
    let result = replace_vars_in_line(line, &flags, &filters, &env);
    assert_eq!(result.unwrap(), "This is an escaped variable: $VAR");

    // Test escaped variable at the end of the line
    let line = "This is an escaped variable at the end: $$VAR$";
    let result = replace_vars_in_line(line, &flags, &filters, &env);
    assert_eq!(
        result.unwrap(),
        "This is an escaped variable at the end: $VAR$"
    );

    // Test invalid variable
    let line = "This is an invalid variable: $1VAR";
    let result = replace_vars_in_line(line, &flags, &filters, &env);
    assert_eq!(result.unwrap(), "This is an invalid variable: $1VAR");

    // Test incomplete brace variable
    let line = "This is an incomplete brace variable: ${VAR";
    let result = replace_vars_in_line(line, &flags, &filters, &env);
    assert_eq!(
        result.unwrap(),
        "This is an incomplete brace variable: ${VAR"
    );

    // Test variable with default value
    let line = "This is a variable with a default value: ${UNSET_VAR:-default}";
    let result = replace_vars_in_line(line, &flags, &filters, &env);
    assert_eq!(
        result.unwrap(),
        "This is a variable with a default value: default"
    );

    // Test variable with default but variable found
    let line = "This is a variable with a default value: ${VAR:-default}";
    let result = replace_vars_in_line(line, &flags, &filters, &env);
    assert_eq!(
        result.unwrap(),
        "This is a variable with a default value: value"
    );

    // Test variable with substring extraction
    let line = "This is a variable with substring extraction: ${VAR:1:3}";
    let result = replace_vars_in_line(line, &flags, &filters, &env);
    assert_eq!(
        result.unwrap(),
        "This is a variable with substring extraction: alu"
    );

    // Test invalid variables like ${1VAR}
    let line = "this is a test line with invalid variable ${1VAR}";
    let result = replace_vars_in_line(line, &flags, &filters, &env);
    assert_eq!(
        result.unwrap(),
        "this is a test line with invalid variable ${1VAR}"
    );

    // Test invalid variables like ${1VAR:-DEFAULT}
    let line = "this is a test line with invalid variable ${1VAR:-DEFAULT}";
    let result = replace_vars_in_line(line, &flags, &filters, &env);
    assert_eq!(
        result.unwrap(),
        "this is a test line with invalid variable ${1VAR:-DEFAULT}"
    );

    // Test braced var to upper
    let line = "This is a braced variable to upper: ${VAR^^}";
    let result = replace_vars_in_line(line, &flags, &filters, &env);
    assert_eq!(result.unwrap(), "This is a braced variable to upper: VALUE");

    // Test braced var to lower
    let line = "This is a braced variable to lower: ${VAR,,}";
    let result = replace_vars_in_line(line, &flags, &filters, &env);
    assert_eq!(result.unwrap(), "This is a braced variable to lower: value");

    // Test braced var first char to upper
    let line = "This is a braced variable first char to upper: ${VAR^}";
    let result = replace_vars_in_line(line, &flags, &filters, &env);
    assert_eq!(
        result.unwrap(),
        "This is a braced variable first char to upper: Value"
    );

    // Test braced var first char to lower
    let line = "This is a braced variable first char to lower: ${VAR,}";
    let result = replace_vars_in_line(line, &flags, &filters, &env);
    assert_eq!(
        result.unwrap(),
        "This is a braced variable first char to lower: value"
    );
}

#[test]
fn test_replace_vars_in_line_flags() {
    let mut env = Environment::new();
    let line = "This is a $VAR.";
    let flags = Flags::default();
    let filters = Filters::default();
    env.set("VAR", "value");

    // Test default behavior
    let result = replace_vars_in_line(line, &flags, &filters, &env);
    assert_eq!(result.unwrap(), "This is a value.");

    // Test unbuffered_lines
    let mut flags = Flags::default();
    flags
        .set(Flag::UnbufferedLines, "--unbuffered-lines", true)
        .expect("Failed to set unbuffered lines flag");

    let result = replace_vars_in_line(line, &flags, &filters, &env);
    assert_eq!(result.unwrap(), "This is a value.");

    // Test --no-replace-empty - simple var
    env.set("EMPTY_VAR", "");
    let line = "This following var is empty: $EMPTY_VAR!";
    let mut flags = Flags::default();
    flags
        .set(Flag::NoReplaceEmpty, "--no-replace-empty", true)
        .expect("Failed to set no replace empty flag");
    let result = replace_vars_in_line(line, &flags, &filters, &env);
    assert_eq!(result.unwrap(), "This following var is empty: $EMPTY_VAR!");

    // Test --no-replace-empty - brace var
    env.set("EMPTY_VAR", "");
    let line = "This following var is empty: ${EMPTY_VAR}!";
    let mut flags = Flags::default();
    flags
        .set(Flag::NoReplaceEmpty, "--no-replace-empty", true)
        .expect("Failed to set no replace empty flag");
    let result = replace_vars_in_line(line, &flags, &filters, &env);
    assert_eq!(
        result.unwrap(),
        "This following var is empty: ${EMPTY_VAR}!"
    );

    // Test --no-replace-unset - simple var
    let line = "This following var is unset: $UNSET_VAR!";
    let mut flags = Flags::default();
    flags
        .set(Flag::NoReplaceUnset, "--no-replace-unset", true)
        .expect("Failed to set no replace unset flag");
    let result = replace_vars_in_line(line, &flags, &filters, &env);
    assert_eq!(result.unwrap(), "This following var is unset: $UNSET_VAR!");

    // Test --no-replace-unset - brace var
    let line = "This following var is unset: ${UNSET_VAR}!";
    let mut flags = Flags::default();
    flags
        .set(Flag::NoReplaceUnset, "--no-replace-unset", true)
        .expect("Failed to set no replace unset flag");
    let result = replace_vars_in_line(line, &flags, &filters, &env);
    assert_eq!(
        result.unwrap(),
        "This following var is unset: ${UNSET_VAR}!"
    );

    // Test --no-replace-empty and --no-replace-unset
    let line =
        "This following var is unset: ${UNSET_VAR}! This following var is empty: $EMPTY_VAR!";
    let mut flags = Flags::default();
    flags
        .set(Flag::NoReplaceEmpty, "--no-replace-empty", true)
        .expect("Failed to set no replace empty flag");
    flags
        .set(Flag::NoReplaceUnset, "--no-replace-unset", true)
        .expect("Failed to set no replace unset flag");
    let result = replace_vars_in_line(line, &flags, &filters, &env);
    assert_eq!(
        result.unwrap(),
        "This following var is unset: ${UNSET_VAR}! This following var is empty: $EMPTY_VAR!"
    );

    // Test --fail-on-unset
    let line = "This following var is unset: $UNSET_VAR!";
    let mut flags = Flags::default();
    flags
        .set(Flag::FailOnUnset, "--fail-on-unset", true)
        .expect("Failed to set fail on unset flag");
    let result = replace_vars_in_line(line, &flags, &filters, &env);
    assert!(result.is_err());
    assert_eq!(
        result.unwrap_err(),
        "environment variable 'UNSET_VAR' is not set"
    );

    // Test --fail-on-empty
    env.set("EMPTY_VAR", "");
    let line = "This following var is empty: $EMPTY_VAR!";
    let mut flags = Flags::default();
    flags
        .set(Flag::FailOnEmpty, "--fail-on-empty", true)
        .expect("Failed to set fail on empty flag");
    let result = replace_vars_in_line(line, &flags, &filters, &env);
    assert!(result.is_err());
    assert_eq!(
        result.unwrap_err(),
        "environment variable 'EMPTY_VAR' is empty"
    );

    // Test --fail-on-unset and --fail-on-empty
    env.set("EMPTY_VAR", "");
    let line =
        "This following var is unset: ${UNSET_VAR}! This following var is empty: $EMPTY_VAR!";
    let mut flags = Flags::default();
    flags
        .set(Flag::FailOnUnset, "--fail-on-unset", true)
        .expect("Failed to set fail on unset flag");
    flags
        .set(Flag::FailOnEmpty, "--fail-on-empty", true)
        .expect("Failed to set fail on empty flag");
    let result = replace_vars_in_line(line, &flags, &filters, &env);
    assert!(result.is_err());
    assert_eq!(
        result.unwrap_err(),
        "environment variable 'UNSET_VAR' is not set"
    );
}

#[test]
fn test_replace_vars_in_line_escaping() {
    let mut env = Environment::new();
    let flags = Flags::default();
    let filters = Filters::default();

    // Test escaping
    let line = "This is a $$ESCAPED_VAR.";
    let result = replace_vars_in_line(line, &Flags::default(), &Filters::default(), &env);
    assert_eq!(result.unwrap(), "This is a $ESCAPED_VAR.");

    // Test escaping - brace var
    let line = "This is a $${ESCAPED_VAR}.";
    let result = replace_vars_in_line(line, &Flags::default(), &Filters::default(), &env);
    assert_eq!(result.unwrap(), "This is a ${ESCAPED_VAR}.");

    // Test escaping - simple var
    let line = "This fi$$h should not escape!";
    let result = replace_vars_in_line(line, &Flags::default(), &Filters::default(), &env);
    assert_eq!(result.unwrap(), "This fi$h should not escape!");

    let line = "This fi$$$$h should not escape!";
    let result = replace_vars_in_line(line, &flags, &filters, &env);
    assert_eq!(result.unwrap(), "This fi$$h should not escape!");

    // Test escaping - simple var
    let line = "This pa$$$$ word should not escape!";
    let result = replace_vars_in_line(line, &flags, &filters, &env);
    assert_eq!(result.unwrap(), "This pa$$ word should not escape!");
}

#[test]
fn test_replace_vars_in_line_filters() {
    let mut env = Environment::new();
    // Test prefixes - empty brace variable
    let line = "This is a ${PREFIX_VAR}.";
    let mut filters = Filters::default();
    filters
        .add(Filter::Prefix, "--prefix", Some("PREFIX"), &mut [].iter())
        .expect("Failed to set prefix filter");
    let result = replace_vars_in_line(line, &Flags::default(), &filters, &env);
    assert_eq!(result.unwrap(), "This is a .");

    // Test prefixes - empty simple variable
    let line = "This is a $PREFIX_VAR.";
    let mut filters = Filters::default();
    filters
        .add(Filter::Prefix, "--prefix", Some("PREFIX"), &mut [].iter())
        .expect("Failed to set prefix filter");
    let result = replace_vars_in_line(line, &Flags::default(), &filters, &env);
    assert_eq!(result.unwrap(), "This is a .");

    // Test prefixes - found brace variable
    env.set("PREFIX_VAR", "prefix");
    let line = "This is a \"${PREFIX_VAR}\".";
    let mut filters = Filters::default();
    filters
        .add(Filter::Prefix, "--prefix", Some("PREFIX"), &mut [].iter())
        .expect("Failed to set prefix filter");
    let result = replace_vars_in_line(line, &Flags::default(), &filters, &env);
    assert_eq!(result.unwrap(), "This is a \"prefix\".");

    // Test prefixes - found simple variable
    env.set("PREFIX_VAR", "prefix");
    let line = "This is a \"$PREFIX_VAR\".";
    let mut filters = Filters::default();
    filters
        .add(Filter::Prefix, "--prefix", Some("PREFIX"), &mut [].iter())
        .expect("Failed to set prefix filter");
    let result = replace_vars_in_line(line, &Flags::default(), &filters, &env);
    assert_eq!(result.unwrap(), "This is a \"prefix\".");

    // Test prefixes - multiple prefixes
    env.set("PREFIX_VAR", "prefix");
    env.set("PFX_VAR", "pfx");
    let line = "This is a \"$PREFIX_VAR\"\n Her anoter \"$PFX_VAR\". This has var has no prefix: \"${NOT_FOUND}\".";
    let mut filters = Filters::default();
    filters
        .add(Filter::Prefix, "--prefix", Some("PREFIX"), &mut [].iter())
        .expect("Failed to set prefix filter");
    filters
        .add(Filter::Prefix, "--prefix", Some("PFX_VAR"), &mut [].iter())
        .expect("Failed to set prefix filter");
    let result = replace_vars_in_line(line, &Flags::default(), &filters, &env);
    assert_eq!(result.unwrap(), "This is a \"prefix\"\n Her anoter \"pfx\". This has var has no prefix: \"${NOT_FOUND}\".");

    // Test suffixes - empty brace variable
    let line = "This is a ${VAR_SUFFIX}.";
    let mut filters = Filters::default();
    filters
        .add(Filter::Suffix, "--suffix", Some("SUFFIX"), &mut [].iter())
        .expect("Failed to set suffix filter");
    let result = replace_vars_in_line(line, &Flags::default(), &filters, &env);
    assert_eq!(result.unwrap(), "This is a .");

    // Test suffixes - empty simple variable
    let line = "This is a $VAR_SUFFIX.";
    let mut filters = Filters::default();
    filters
        .add(Filter::Suffix, "--suffix", Some("SUFFIX"), &mut [].iter())
        .expect("Failed to set suffix filter");
    let result = replace_vars_in_line(line, &Flags::default(), &filters, &env);
    assert_eq!(result.unwrap(), "This is a .");

    // Test suffixes - found brace variable
    env.set("VAR_SUFFIX", "suffix");
    let line = "This is a \"${VAR_SUFFIX}\".";
    let mut filters = Filters::default();
    filters
        .add(Filter::Suffix, "--suffix", Some("SUFFIX"), &mut [].iter())
        .expect("Failed to set suffix filter");
    let result = replace_vars_in_line(line, &Flags::default(), &filters, &env);
    assert_eq!(result.unwrap(), "This is a \"suffix\".");

    // Test suffixes - found simple variable
    env.set("VAR_SUFFIX", "suffix");
    let line = "This is a \"$VAR_SUFFIX\".";
    let mut filters = Filters::default();
    filters
        .add(Filter::Suffix, "--suffix", Some("SUFFIX"), &mut [].iter())
        .expect("Failed to set suffix filter");
    let result = replace_vars_in_line(line, &Flags::default(), &filters, &env);
    assert_eq!(result.unwrap(), "This is a \"suffix\".");

    // Test suffixes - multiple suffixes
    env.set("VAR_SUFFIX", "suffix");
    env.set("VAR_SFX", "sfx");
    let line = "This is a \"$VAR_SUFFIX\"\n Her anoter \"$VAR_SFX\". This has var has no suffix: \"${NOT_FOUND}\".";
    let mut filters = Filters::default();
    filters
        .add(
            Filter::Prefix,
            "--suffix",
            Some("VAR_SUFFIX"),
            &mut [].iter(),
        )
        .expect("Failed to set suffix filter");
    filters
        .add(Filter::Prefix, "--suffix", Some("VAR_SFX"), &mut [].iter())
        .expect("Failed to set suffix filter");
    let result = replace_vars_in_line(line, &Flags::default(), &filters, &env);
    assert_eq!(result.unwrap(), "This is a \"suffix\"\n Her anoter \"sfx\". This has var has no suffix: \"${NOT_FOUND}\".");

    // Test prefixes and suffixes - found brace variable
    env.set("PREFIX_VAR_SUFFIX", "prefix_suffix");
    let line = "This is a \"${PREFIX_VAR_SUFFIX}\".";
    let mut filters = Filters::default();
    filters
        .add(Filter::Prefix, "--prefix", Some("PREFIX"), &mut [].iter())
        .expect("Failed to set prefix filter");
    filters
        .add(Filter::Suffix, "--suffix", Some("SUFFIX"), &mut [].iter())
        .expect("Failed to set suffix filter");
    let result = replace_vars_in_line(line, &Flags::default(), &filters, &env);
    assert_eq!(result.unwrap(), "This is a \"prefix_suffix\".");

    // Test prefixes and suffixes - found simple variable
    env.set("PREFIX_VAR_SUFFIX", "prefix_suffix");
    let line = "This is a \"$PREFIX_VAR_SUFFIX\".";
    let mut filters = Filters::default();
    filters
        .add(Filter::Prefix, "--prefix", Some("PREFIX"), &mut [].iter())
        .expect("Failed to set prefix filter");
    filters
        .add(Filter::Suffix, "--suffix", Some("SUFFIX"), &mut [].iter())
        .expect("Failed to set suffix filter");
    let result = replace_vars_in_line(line, &Flags::default(), &filters, &env);
    assert_eq!(result.unwrap(), "This is a \"prefix_suffix\".");

    // Test variables
    env.set("VAR", "value");
    let line = "This is a \"$VAR\".";
    let result = replace_vars_in_line(line, &Flags::default(), &Filters::default(), &env);
    assert_eq!(result.unwrap(), "This is a \"value\".");

    // Test variables - empty variable
    env.set("VAR", "");
    let line = "This is a \"$VAR\".";
    let mut filters = Filters::default();
    filters
        .add(Filter::Suffix, "--variable", Some("VAR"), &mut [].iter())
        .expect("Failed to set variable filter");
    let result = replace_vars_in_line(line, &Flags::default(), &filters, &env);
    assert_eq!(result.unwrap(), "This is a \"\".");

    // Test variables - empty variable --no-replace
    env.set("VAR", "");
    let line = "This is a \"$SPECIAL_VAR\".";
    let mut filters = Filters::default();
    filters
        .add(Filter::Variable, "--variable", Some("VAR"), &mut [].iter())
        .expect("Failed to set variable filter");
    let result = replace_vars_in_line(line, &Flags::default(), &filters, &env);
    assert_eq!(result.unwrap(), "This is a \"$SPECIAL_VAR\".");
}

#[test]
fn test_replace_vars_in_line_filter_variable_substitution() {
    let mut env = Environment::new();
    // Test multiple filters with pattern_stripping
    env.set("VAR", "value");
    let line = "This is a \"${VAR%ue}\".";
    let mut filters = Filters::default();
    filters
        .add(Filter::Variable, "--variable", Some("VAR"), &mut [].iter())
        .expect("Failed to set variable filter");
    filters
        .add(Filter::Prefix, "--prefix", Some("PREFIX"), &mut [].iter())
        .expect("Failed to set prefix filter");
    filters
        .add(Filter::Suffix, "--suffix", Some("SUFFIX"), &mut [].iter())
        .expect("Failed to set suffix filter");
    let mut flags = Flags::default();
    let f = flags.set(Flag::Color, "-c", true);
    assert!(f.is_ok());

    let result = replace_vars_in_line(line, &flags, &filters, &env);
    assert_eq!(
        result.unwrap(),
        format!("This is a \"{}\".", "val".color(Color::Blue))
    );
}

#[test]
fn test_replace_vars_in_line_filter_pattern_stripping_suffix_not_found() {
    let mut env = Environment::new();
    // Test multiple filters with pattern_stripping
    env.set("VAR", "value");
    let line = "This is a \"${VAR%notfound}\".";
    let mut filters = Filters::default();
    filters
        .add(Filter::Variable, "--variable", Some("VAR"), &mut [].iter())
        .expect("Failed to set variable filter");
    filters
        .add(Filter::Prefix, "--prefix", Some("PREFIX"), &mut [].iter())
        .expect("Failed to set prefix filter");
    filters
        .add(Filter::Suffix, "--suffix", Some("SUFFIX"), &mut [].iter())
        .expect("Failed to set suffix filter");
    let mut flags = Flags::default();
    let f = flags.set(Flag::Color, "-c", true);
    assert!(f.is_ok());

    let result = replace_vars_in_line(line, &flags, &filters, &env);
    assert_eq!(
        result.unwrap(),
        format!("This is a \"{}\".", "value".color(Color::Red))
    );
}

#[test]
fn test_replace_vars_in_line_filter_pattern_stripping_variable_not_found() {
    let mut env = Environment::new();
    // Test multiple filters with pattern_stripping
    let line = "This is a \"${UNSET_VAR%notfound}\".";
    let mut filters = Filters::default();
    filters
        .add(Filter::Variable, "--variable", Some("VAR"), &mut [].iter())
        .expect("Failed to set variable filter");
    filters
        .add(Filter::Prefix, "--prefix", Some("PREFIX"), &mut [].iter())
        .expect("Failed to set prefix filter");
    filters
        .add(Filter::Suffix, "--suffix", Some("SUFFIX"), &mut [].iter())
        .expect("Failed to set suffix filter");
    let mut flags = Flags::default();
    let f = flags.set(Flag::Color, "-c", true);
    assert!(f.is_ok());

    let result = replace_vars_in_line(line, &flags, &filters, &env);
    println!("{}", result.clone().unwrap().to_string());
    assert_eq!(
        result.unwrap(),
        format!("This is a \"{}\".", "${UNSET_VAR}".color(Color::Magenta)),
    );
}
