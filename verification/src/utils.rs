//! Helpers shared by the parsers of the command line and by the substitution.

use crate::errors::{ArgsErrorView, ParseArgsError};
use crate::flags::{flag_on, Flag, Flags};
use crate::substitute::{empty_message, unset_message};
use crate::text::{replace_all, same_result, str_eq};
use colored::Colorize;
use vstd::std_specs::iter::IteratorSpec;
use vstd::prelude::*;

verus! {

/// The parameters that can be used to start the program. A flag that needs a value does not
/// accept one of these as its value.
pub open spec fn start_parameters() -> Seq<Seq<char>> {
    seq![
        "-i"@, "--input"@, "-o"@, "--output"@, "-h"@, "--help"@, "--version"@, "-u"@,
        "--fail-on-unset"@, "-e"@, "--fail-on-empty"@, "-f"@, "--fail"@, "-U"@,
        "--no-replace-unset"@, "-E"@, "--no-replace-empty"@, "-N"@, "--no-replace"@, "-x"@,
        "--no-escape"@, "-b"@, "--unbuffer-lines"@, "-p"@, "--prefix"@, "-s"@, "--suffix"@,
        "-v"@, "--variable"@, "-c"@, "--color"@,
    ]
}

/// Whether `arg` is one of the [`start_parameters`].
pub fn is_start_parameter(arg: &str) -> (r: bool)
    ensures
        r == start_parameters().contains(arg@),
{
    let params: [&str; 31] = [
        "-i", "--input", "-o", "--output", "-h", "--help", "--version", "-u", "--fail-on-unset",
        "-e", "--fail-on-empty", "-f", "--fail", "-U", "--no-replace-unset", "-E",
        "--no-replace-empty", "-N", "--no-replace", "-x", "--no-escape", "-b", "--unbuffer-lines",
        "-p", "--prefix", "-s", "--suffix", "-v", "--variable", "-c", "--color",
    ];
    let ghost views = params@.map_values(|p: &str| p@);
    assert(views =~= start_parameters());
    let mut i: usize = 0;
    while i < 31
        invariant
            0 <= i <= 31,
            views == params@.map_values(|p: &str| p@),
            views == start_parameters(),
            forall|j: int| 0 <= j < i ==> views[j] != arg@,
        decreases 31 - i,
    {
        if str_eq(params[i], arg) {
            assert(views[i as int] == arg@);
            return true;
        }
        i = i + 1;
    }
    false
}

/// The text that a flag takes as its value: the one given after `=`, else the next
/// argument that is left, if any.
pub open spec fn given_value(value: Option<Seq<char>>, rest: Seq<&String>) -> Option<Seq<char>> {
    match value {
        Some(v) => Some(v),
        None => if rest.len() > 0 {
            Some(rest[0]@)
        } else {
            None
        },
    }
}

/// The value of the flag `arg`, or the error for it: the value is missing when none is given
/// or when the one given is itself a [`start_parameters`] entry.
pub open spec fn value_outcome(arg: Seq<char>, given: Option<Seq<char>>) -> Result<Seq<char>, ArgsErrorView> {
    match given {
        Some(v) => if start_parameters().contains(v) {
            Err(ArgsErrorView::MissingValue(arg))
        } else {
            Ok(v)
        },
        None => Err(ArgsErrorView::MissingValue(arg)),
    }
}

/// Takes the value of the flag `arg`: `value` if it was given with `=`, otherwise the next
/// argument of `iter` (which is then used up).
pub fn take_value(arg: &str, value: Option<&str>, iter: &mut std::slice::Iter<'_, String>) -> (r: Result<String, ParseArgsError>)
    ensures
        (*final(iter)).decrease() is Some == (*old(iter)).decrease() is Some,
        value is None && (*old(iter)).remaining().len() > 0 ==> {
            &&& (*final(iter)).remaining() == (*old(iter)).remaining().drop_first()
            &&& (*old(iter)).decrease() is Some ==> decreases_to!((*old(iter)).decrease()->0 => (*final(iter)).decrease()->0)
        },
        value is None && (*old(iter)).remaining().len() == 0 ==> (*final(iter)).remaining() == (*old(iter)).remaining(),
        value is Some ==> *final(iter) == *old(iter),
        match value_outcome(arg@, given_value(opt_view(value), (*old(iter)).remaining())) {
            Ok(v) => r matches Ok(s) && s@ == v,
            Err(e) => r matches Err(err) && err@ == e,
        },
{
    let flag_arg: String = match value {
        Some(v) => String::from_str(v),
        None => match next_item(iter) {
            Some(next) => next.clone(),
            None => return Err(ParseArgsError::MissingValue(String::from_str(arg))),
        },
    };
    if is_start_parameter(flag_arg.as_str()) {
        return Err(ParseArgsError::MissingValue(String::from_str(arg)));
    }
    Ok(flag_arg)
}

/// The characters of an optional string.
pub open spec fn opt_view(value: Option<&str>) -> Option<Seq<char>> {
    match value {
        Some(v) => Some(v@),
        None => None,
    }
}

/// The next item of an iterator (`Iterator::next`).
pub(crate) fn next_item<I: Iterator>(iter: &mut I) -> (r: Option<I::Item>)
    ensures
        (*final(iter)).obeys_prophetic_iter_laws() == (*old(iter)).obeys_prophetic_iter_laws(),
        (*final(iter)).obeys_prophetic_iter_laws() ==> ((*old(iter)).decrease() is Some <==> (*final(iter)).decrease() is Some),
        (*final(iter)).obeys_prophetic_iter_laws() ==> ({
            if (*old(iter)).remaining().len() > 0 {
                &&& (*final(iter)).remaining() == (*old(iter)).remaining().drop_first()
                &&& r == Some((*old(iter)).remaining()[0])
            } else {
                (*final(iter)).remaining() === (*old(iter)).remaining() && r === None
            }
        }),
        (*final(iter)).obeys_prophetic_iter_laws() && (*old(iter)).remaining().len() > 0 && (*final(iter)).decrease() is Some ==>
            decreases_to!((*old(iter)).decrease()->0 => (*final(iter)).decrease()->0),
{
    iter.next()
}

/// The colors used to mark substituted text.
#[derive(Debug, PartialEq, Eq, Structural, Copy, Clone)]
pub enum TextColor {
    Red,
    Green,
    Yellow,
    Blue,
    Magenta,
}

/// The ANSI code of the foreground color.
pub open spec fn color_code(c: TextColor) -> Seq<char> {
    match c {
        TextColor::Red => seq!['3', '1'],
        TextColor::Green => seq!['3', '2'],
        TextColor::Yellow => seq!['3', '3'],
        TextColor::Blue => seq!['3', '4'],
        TextColor::Magenta => seq!['3', '5'],
    }
}

/// The ANSI sequence that sets the foreground color.
pub open spec fn color_start(c: TextColor) -> Seq<char> {
    seq!['\x1B', '['] + color_code(c) + seq!['m']
}

/// The ANSI sequence that resets all attributes.
pub open spec fn color_reset() -> Seq<char> {
    seq!['\x1B', '[', '0', 'm']
}

/// `text` in the color `c` as the `colored` crate writes it when it colors: the color's start
/// sequence, the text with the color started again after each reset inside it, and a reset.
pub open spec fn styled(text: Seq<char>, c: TextColor) -> Seq<char> {
    color_start(c) + replace_all(text, color_reset(), color_reset() + color_start(c)) + color_reset()
}

/// `text` as [`colorize_text`] returns it: unchanged when coloring is off; when it is on,
/// `styled` tells whether the `colored` crate colored it (it decides by the environment and
/// the terminal).
pub open spec fn colorize(colored: bool, text: Seq<char>, c: TextColor, styled_out: bool) -> Seq<char> {
    if colored && styled_out {
        styled(text, c)
    } else {
        text
    }
}

/// `text` in the color `c` (`colored::Colorize::color`, then `to_string`).
///
/// The `colored` crate colors the text only when its settings, which it takes from the
/// environment (`NO_COLOR`, `CLICOLOR`, `CLICOLOR_FORCE`) and from whether standard output is
/// a terminal, allow it; otherwise the text comes back unchanged. The contract states both
/// outcomes; which one occurs is not stated.
#[verifier::external_body]
fn paint(text: &str, color: TextColor) -> (r: String)
    ensures
        r@ == text@ || r@ == styled(text@, color),
{
    let c = match color {
        TextColor::Red => colored::Color::Red,
        TextColor::Green => colored::Color::Green,
        TextColor::Yellow => colored::Color::Yellow,
        TextColor::Blue => colored::Color::Blue,
        TextColor::Magenta => colored::Color::Magenta,
    };
    text.color(c).to_string()
}

/// `text` in the color `color` when `colored` is set, otherwise `text` unchanged.
pub fn colorize_text(colored: bool, text: String, color: TextColor) -> (r: String)
    ensures
        exists|b: bool| r@ == #[trigger] colorize(colored, text@, color, b),
        !colored ==> r@ == text@,
{
    if colored {
        let r = paint(text.as_str(), color);
        assert(r@ == colorize(colored, text@, color, r@ == styled(text@, color)));
        return r;
    }
    assert(text@ == colorize(colored, text@, color, false));
    text
}

/// What [`handle_flags_on_result`] returns for the value `result` of the variable `name`
/// written as `original`; `is_set` tells whether the variable is set in the environment.
///
/// An empty result of a variable that is not set is an error under `Fail` and `FailOnUnset`
/// ("not set"), else under `FailOnEmpty` ("empty"); it is kept as written under any
/// no-replace flag. An empty result of a variable that is set is an error under `Fail` and
/// `FailOnEmpty` ("empty"), and is kept as written under `NoReplace` and `NoReplaceEmpty`;
/// `FailOnUnset` and `NoReplaceUnset` do not act on it. Any other result is returned as it
/// is.
pub open spec fn handle_spec(
    result: Seq<char>,
    is_set: bool,
    name: Seq<char>,
    original: Seq<char>,
    fl: Map<Flag, (Seq<char>, Option<bool>)>,
    b: bool,
) -> Result<Seq<char>, Seq<char>> {
    let keep = Ok(colorize(flag_on(fl, Flag::Color), original, TextColor::Red, b));
    if result.len() != 0 {
        Ok(result)
    } else if !is_set {
        if flag_on(fl, Flag::Fail) || flag_on(fl, Flag::FailOnUnset) {
            Err(unset_message(name))
        } else if flag_on(fl, Flag::FailOnEmpty) {
            Err(empty_message(name))
        } else if flag_on(fl, Flag::NoReplace) || flag_on(fl, Flag::NoReplaceUnset) || flag_on(
            fl,
            Flag::NoReplaceEmpty,
        ) {
            keep
        } else {
            Ok(result)
        }
    } else {
        if flag_on(fl, Flag::Fail) || flag_on(fl, Flag::FailOnEmpty) {
            Err(empty_message(name))
        } else if flag_on(fl, Flag::NoReplace) || flag_on(fl, Flag::NoReplaceEmpty) {
            keep
        } else {
            Ok(result)
        }
    }
}

/// Applies the flags `Fail`, `FailOnEmpty`, `FailOnUnset`, `NoReplace`, `NoReplaceUnset` and
/// `NoReplaceEmpty` to the value `result` that a variable was replaced with; `is_set` tells
/// whether the variable is set in the environment. See [`handle_spec`].
///
/// Only an empty result is acted on: it is an error ("not set" or "empty"), or the variable
/// is kept as written (`original_variable`, in red when coloring). A variable that is set
/// but empty is not treated as one that is not set.
pub fn handle_flags_on_result(
    result: String,
    is_set: bool,
    var_name: &str,
    original_variable: &str,
    flags: &Flags,
) -> (r: Result<String, String>)
    ensures
        exists|b: bool| same_result(r, #[trigger] handle_spec(result@, is_set, var_name@, original_variable@, flags@, b)),
{
    let ghost spec = |b: bool| handle_spec(result@, is_set, var_name@, original_variable@, flags@, b);
    if !result.as_str().is_empty() {
        assert(same_result(Ok(result), spec(false)));
        return Ok(result);
    }
    let fail = flags.is_flag_set(Flag::Fail);
    let fail_on_empty = flags.is_flag_set(Flag::FailOnEmpty);
    let no_replace = flags.is_flag_set(Flag::NoReplace);
    let no_replace_empty = flags.is_flag_set(Flag::NoReplaceEmpty);
    if !is_set && (fail || flags.is_flag_set(Flag::FailOnUnset)) {
        let mut m = String::from_str("environment variable '");
        m.append(var_name);
        m.append("' is not set");
        assert(same_result(Err(m), spec(false)));
        return Err(m);
    }
    if fail_on_empty || (is_set && fail) {
        let mut m = String::from_str("environment variable '");
        m.append(var_name);
        m.append("' is empty");
        assert(same_result(Err(m), spec(false)));
        return Err(m);
    }
    if no_replace || no_replace_empty || (!is_set && flags.is_flag_set(Flag::NoReplaceUnset)) {
        let colored = flags.is_flag_set(Flag::Color);
        let r = colorize_text(colored, String::from_str(original_variable), TextColor::Red);
        let ghost b = choose|b: bool| r@ == #[trigger] colorize(colored, original_variable@, TextColor::Red, b);
        assert(same_result(Ok(r), spec(b)));
        return Ok(r);
    }
    assert(same_result(Ok(result), spec(false)));
    Ok(result)
}

} // verus!
