use renvsubst::flags::{Flag, Flags};
use renvsubst::utils::{colorize_text, handle_flags_on_result, TextColor};

#[test]
fn test_handle_flags_on_result() {
    let var_name = "VAR";
    let inner_expr = "VAR";
    let mut flags = Flags::default();
    let original_variable = "$VAR".to_string();

    // Test without any flags
    let result =
        handle_flags_on_result("Hello".to_string(), true, var_name, &original_variable, &flags);
    assert_eq!(result.unwrap(), "Hello");

    // Test with Fail flag and non-empty result
    flags
        .set(Flag::Fail, "--fail", true)
        .expect("Failed to set Fail flag");
    let result =
        handle_flags_on_result("Hello".to_string(), true, var_name, &original_variable, &flags);
    assert_eq!(result.unwrap(), "Hello");

    // Test with Fail flag and empty result
    let result = handle_flags_on_result(String::new(), true, var_name, &original_variable, &flags);
    assert!(result.is_err());

    // Test with FailOnEmpty flag and empty result
    flags = Flags::default();
    flags
        .set(Flag::FailOnEmpty, "--fail-on-empty", true)
        .expect("Failed to set FailOnEmpty flag");

    let result = handle_flags_on_result(String::new(), true, var_name, &original_variable, &flags);
    assert!(result.is_err());

    // Test with FailOnUnset flag and unset variable
    flags = Flags::default();
    flags
        .set(Flag::FailOnUnset, "--fail-on-unset", true)
        .expect("Failed to set FailOnUnset flag");
    let result = handle_flags_on_result(String::new(), false, "UNSET_VAR", &original_variable, &flags);
    assert!(result.is_err());

    // Test with NoReplace flag
    flags = Flags::default();
    flags
        .set(Flag::NoReplace, "--no-replace", true)
        .expect("Failed to set NoReplace flag");
    let result = handle_flags_on_result(String::new(), true, var_name, &original_variable, &flags);
    assert_eq!(result.unwrap(), format!("${inner_expr}"));

    // Test with NoReplaceEmpty flag and empty result
    flags = Flags::default();
    flags
        .set(Flag::NoReplaceEmpty, "--no-replace-empty", true)
        .expect("Failed to set NoReplaceEmpty flag");
    let result = handle_flags_on_result(String::new(), true, var_name, &original_variable, &flags);
    assert_eq!(result.unwrap(), format!("${inner_expr}"));

    // Test with NoReplaceUnset flag and unset variable
    flags = Flags::default();
    flags
        .set(Flag::NoReplaceUnset, "--no-replace-unset", true)
        .expect("Failed to set NoReplaceUnset flag");
    let result = handle_flags_on_result(String::new(), false, "UNSET_VAR", &original_variable, &flags);
    assert_eq!(result.unwrap(), format!("${inner_expr}"));
}
