use colored::Colorize;
use renvsubst::env_subst::replace_vars_in_line;
use renvsubst::environment::Environment;
use renvsubst::filters::Filters;
use renvsubst::flags::{Flag, Flags};
use renvsubst::utils::{colorize_text, TextColor};
use renvsubst::variable_expansion::process_pattern_stripping;

#[test]
fn test_colorize_text() {
    // Color as a terminal would be colored.
    colored::control::set_override(true);
    // Test default behavior
    let text = "This is a test.";
    let result = colorize_text(false, text.to_string(), TextColor::Green);
    assert_eq!(result, "This is a test.");

    // Test colorize
    let result = colorize_text(true, text.to_string(), TextColor::Green);
    assert_eq!(result, "\u{1b}[32mThis is a test.\u{1b}[0m".to_string());
}

#[test]
fn test_colorize_text_restarts_color_after_inner_reset() {
    colored::control::set_override(true);
    let result = colorize_text(true, "a\u{1b}[0mb".to_string(), TextColor::Red);
    assert_eq!(result, "\u{1b}[31ma\u{1b}[0m\u{1b}[31mb\u{1b}[0m");
    assert_eq!(colorize_text(false, "a".to_string(), TextColor::Red), "a");
}

#[test]
fn test_colored_line() {
    colored::control::set_override(true);
    let mut env = Environment::new();
    env.set("V", "value");
    let mut flags = Flags::default();
    flags.set(Flag::Color, "--color", true).unwrap();
    flags.set(Flag::NoReplaceUnset, "-U", true).unwrap();
    let filters = Filters::default();
    let r = replace_vars_in_line("$V ${U:-d} $U", &flags, &filters, &env).unwrap();
    let expected = format!(
        "{} {} {}",
        "value".green(),
        "d".yellow(),
        "$U".red().to_string().green()
    );
    assert_eq!(r, expected);
    assert_eq!(
        r,
        "\u{1b}[32mvalue\u{1b}[0m \u{1b}[33md\u{1b}[0m \u{1b}[32m\u{1b}[31m$U\u{1b}[0m\u{1b}[32m\u{1b}[0m"
    );
}

#[test]
fn test_colored_stripping() {
    colored::control::set_override(true);
    let r = process_pattern_stripping('#', "value", Some("va"), "V#va", true).unwrap();
    assert_eq!(r, "lue".blue().to_string());
    let r = process_pattern_stripping('#', "value", Some("x"), "V#x", true).unwrap();
    assert_eq!(r, "\u{1b}[31mvalue\u{1b}[0m");
}
