use renvsubst::errors::ParseArgsError;
use renvsubst::filters::{Filter, Filters};
use renvsubst::string_set::StringSet;

#[test]
fn test_filters_add_prefix() {
    let mut filters = Filters::default();
    assert!(filters.prefixes.is_none());

    filters
        .add(Filter::Prefix, "--prefix", Some("test"), &mut [].iter())
        .unwrap();
    assert_eq!(
        filters.prefixes,
        Some(StringSet::from_iter(vec!["test".to_string()]))
    );

    filters
        .add(Filter::Prefix, "-p", Some("hello"), &mut [].iter())
        .unwrap();
    assert_eq!(
        filters.prefixes,
        Some(
            StringSet::from_iter(vec!["test".to_string(), "hello".to_string()])
        )
    );
}

#[test]
fn test_filters_add_suffix() {
    let mut filters = Filters::default();
    assert!(filters.suffixes.is_none());

    filters
        .add(Filter::Suffix, "--suffix", Some("test"), &mut [].iter())
        .unwrap();
    assert_eq!(
        filters.suffixes,
        Some(StringSet::from_iter(vec!["test".to_string()]))
    );

    filters
        .add(Filter::Suffix, "-s", Some("hello"), &mut [].iter())
        .unwrap();
    assert_eq!(
        filters.suffixes,
        Some(
            StringSet::from_iter(vec!["test".to_string(), "hello".to_string()])
        )
    );
}

#[test]
fn test_filters_add_variable() {
    let mut filters = Filters::default();
    assert!(filters.variables.is_none());

    filters
        .add(Filter::Variable, "--variable", Some("test"), &mut [].iter())
        .unwrap();
    assert_eq!(
        filters.variables,
        Some(StringSet::from_iter(vec!["test".to_string()]))
    );

    filters
        .add(Filter::Variable, "-v", Some("hello"), &mut [].iter())
        .unwrap();
    assert_eq!(
        filters.variables,
        Some(
            StringSet::from_iter(vec!["test".to_string(), "hello".to_string()])
        )
    );
}

#[test]
fn test_filters_add_missing_value() {
    let mut filters = Filters::default();
    let result = filters.add(Filter::Prefix, "--prefix", None, &mut [].iter());
    assert!(result.is_err());
    assert_eq!(
        result.unwrap_err(),
        ParseArgsError::MissingValue("--prefix".to_string())
    );
}

#[test]
fn test_filters_add_start_parameter() {
    let mut filters = Filters::default();
    let result = filters.add(Filter::Prefix, "--help", None, &mut [].iter());
    assert!(result.is_err());
    assert_eq!(
        result.unwrap_err(),
        ParseArgsError::MissingValue("--help".to_string())
    );
}

#[test]
fn test_add_start_parameters() {
    let mut filters = Filters::default();
    let args = vec!["--help".to_string(), "value".to_string()];
    let mut iter = args.iter();
    let result = filters.add(Filter::Prefix, "--help", None, &mut iter);
    assert!(result.is_err());
    assert_eq!(
        result.unwrap_err(),
        ParseArgsError::MissingValue("--help".to_string())
    );
}

#[test]
fn test_no_filters() {
    let filters = Filters::default();
    assert_eq!(filters.matches("test_var"), None);
}

#[test]
fn test_prefix_filter() {
    let mut filters = Filters::default();
    filters
        .add(Filter::Prefix, "--prefix", Some("test"), &mut [].iter())
        .unwrap();
    assert_eq!(filters.matches("test_var"), Some(true));
    assert_eq!(filters.matches("var_test"), Some(false));
}

#[test]
fn test_suffix_filter() {
    let mut filters = Filters::default();
    filters
        .add(Filter::Suffix, "--suffix", Some("test"), &mut [].iter())
        .unwrap();
    assert_eq!(filters.matches("test_var"), Some(false));
    assert_eq!(filters.matches("var_test"), Some(true));
}

#[test]
fn test_variable_filter() {
    let mut filters = Filters::default();
    filters
        .add(Filter::Variable, "--variable", Some("test"), &mut [].iter())
        .unwrap();
    assert_eq!(filters.matches("test_var"), Some(false));
    assert_eq!(filters.matches("test"), Some(true));
}

#[test]
fn test_multiple_prefix_filters() {
    let mut filters = Filters::default();
    filters
        .add(Filter::Prefix, "--prefix", Some("test"), &mut [].iter())
        .unwrap();
    filters
        .add(Filter::Prefix, "-p", Some("hello"), &mut [].iter())
        .unwrap();
    assert_eq!(filters.matches("test_var"), Some(true));
    assert_eq!(filters.matches("var_test"), Some(false));
    assert_eq!(filters.matches("hello_var"), Some(true));
    assert_eq!(filters.matches("var_hello"), Some(false));
}

#[test]
fn test_multiple_suffix_filters() {
    let mut filters = Filters::default();
    filters
        .add(Filter::Suffix, "--suffix", Some("test"), &mut [].iter())
        .unwrap();
    filters
        .add(Filter::Suffix, "-s", Some("hello"), &mut [].iter())
        .unwrap();
    assert_eq!(filters.matches("test_var"), Some(false));
    assert_eq!(filters.matches("var_test"), Some(true));
    assert_eq!(filters.matches("hello_var"), Some(false));
    assert_eq!(filters.matches("var_hello"), Some(true));
}

#[test]
fn test_multiple_variable_filters() {
    let mut filters = Filters::default();
    filters
        .add(Filter::Variable, "--variable", Some("test"), &mut [].iter())
        .unwrap();
    filters
        .add(Filter::Variable, "-v", Some("hello"), &mut [].iter())
        .unwrap();
    assert_eq!(filters.matches("test"), Some(true));
    assert_eq!(filters.matches("var_test"), Some(false));
    assert_eq!(filters.matches("hello"), Some(true));
    assert_eq!(filters.matches("hello_var"), Some(false));
}

#[test]
fn test_multiple_filters() {
    let mut filters = Filters::default();
    filters
        .add(Filter::Prefix, "--prefix", Some("test"), &mut [].iter())
        .unwrap();
    filters
        .add(Filter::Suffix, "--suffix", Some("test"), &mut [].iter())
        .unwrap();
    filters
        .add(Filter::Variable, "--variable", Some("test"), &mut [].iter())
        .unwrap();
    assert_eq!(filters.matches("test_var"), Some(true));
    assert_eq!(filters.matches("var_test"), Some(true));
    assert_eq!(filters.matches("test"), Some(true));
}

#[test]
fn test_multiple_filters_with_no_match() {
    let mut filters = Filters::default();
    filters
        .add(Filter::Prefix, "--prefix", Some("test"), &mut [].iter())
        .unwrap();
    filters
        .add(Filter::Suffix, "--suffix", Some("test"), &mut [].iter())
        .unwrap();
    filters
        .add(Filter::Variable, "--variable", Some("test"), &mut [].iter())
        .unwrap();
    assert_eq!(filters.matches("hello_var"), Some(false));
}

#[test]
fn test_multiple_filters_with_match() {
    let mut filters = Filters::default();
    filters
        .add(Filter::Prefix, "--prefix", Some("test"), &mut [].iter())
        .unwrap();
    filters
        .add(Filter::Suffix, "--suffix", Some("test"), &mut [].iter())
        .unwrap();
    filters
        .add(Filter::Variable, "--variable", Some("test"), &mut [].iter())
        .unwrap();
    assert_eq!(filters.matches("test_var"), Some(true));
}

#[test]
fn test_multiple_filters_with_match_and_no_match() {
    let mut filters = Filters::default();
    filters
        .add(Filter::Prefix, "--prefix", Some("test"), &mut [].iter())
        .unwrap();
    filters
        .add(Filter::Suffix, "--suffix", Some("test"), &mut [].iter())
        .unwrap();
    filters
        .add(Filter::Variable, "--variable", Some("test"), &mut [].iter())
        .unwrap();
    assert_eq!(filters.matches("test_var"), Some(true));
    assert_eq!(filters.matches("hello_var"), Some(false));
}

#[test]
fn test_multiple_filters_with_match_and_no_match_and_match() {
    let mut filters = Filters::default();
    filters
        .add(Filter::Prefix, "--prefix", Some("test"), &mut [].iter())
        .unwrap();
    filters
        .add(Filter::Suffix, "--suffix", Some("test"), &mut [].iter())
        .unwrap();
    filters
        .add(Filter::Variable, "--variable", Some("test"), &mut [].iter())
        .unwrap();
    assert_eq!(filters.matches("test_var"), Some(true));
    assert_eq!(filters.matches("hello_var"), Some(false));
    assert_eq!(filters.matches("test_var"), Some(true));
}

