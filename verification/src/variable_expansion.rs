//! The string functions of braced variables: `${VAR#p}`, `${VAR%p}`, `${VAR/p/r}`,
//! `${VAR,}`, `${VAR^^}`, `${VAR:offset:length}`, `${VAR:-default}`.

use crate::text::{
    ascii_alnum, ascii_lower, ascii_upper, chars_of, extend_vec, head_of,
    is_ascii_char, lemma_split_once, occurs_at, parse_usize, parse_usize_spec, prefix_of, replace_all,
    replace_all_exec, replace_first, replace_first_exec, same_result, split_once, str_eq,
    string_of, suffix_of, tail_of, to_ascii_lower, to_ascii_upper, to_lowercase, to_uppercase,
    unicode_lowercase, unicode_uppercase, vec_eq,
};
use crate::environment::{value_or_empty, Environment};
use crate::filters::{filter_match, Filters, FiltersView};
use crate::flags::{flag_on, Flag, Flags};
use crate::substitute::{ident_end, is_name_char, lemma_ident_end_at};
use crate::utils::{colorize, colorize_text, handle_flags_on_result, handle_spec, TextColor};
use vstd::prelude::*;

verus! {

/// The error for an operation character that the function does not handle.
pub open spec fn invalid_op_message(inner: Seq<char>, op: char) -> Seq<char> {
    "\""@ + inner + "\" - Invalid operation: '"@ + seq![op] + "'"@
}

/// The characters of an optional string.
pub open spec fn data_view(d: Option<&str>) -> Option<Seq<char>> {
    match d {
        Some(s) => Some(s@),
        None => None,
    }
}

/// `${VAR#pattern}` and `${VAR%pattern}`: the value without the pattern at its start (`#`)
/// or at its end (`%`), in blue; the value unchanged, in red, when the pattern is not there.
pub open spec fn stripping_spec(
    op: char,
    value: Seq<char>,
    data: Option<Seq<char>>,
    inner: Seq<char>,
    colored: bool,
    b: bool,
) -> Result<Seq<char>, Seq<char>> {
    if value.len() == 0 {
        Ok(value)
    } else {
        match data {
            None => Ok(value),
            Some(p) => if op == '#' && prefix_of(p, value) {
                Ok(colorize(colored, value.skip(p.len() as int), TextColor::Blue, b))
            } else if op == '%' && suffix_of(p, value) {
                Ok(colorize(colored, value.take(value.len() - p.len()), TextColor::Blue, b))
            } else if op == '%' || op == '#' {
                Ok(colorize(colored, value, TextColor::Red, b))
            } else {
                Err(invalid_op_message(inner, op))
            },
        }
    }
}

/// Removes `operation_data` from the start (`op` is `#`) or the end (`op` is `%`) of
/// `value`; see [`stripping_spec`].
pub fn process_pattern_stripping(
    op: char,
    value: &str,
    operation_data: Option<&str>,
    inner_expr: &str,
    colored: bool,
) -> (r: Result<String, String>)
    ensures
        exists|b: bool| same_result(r, #[trigger] stripping_spec(op, value@, data_view(operation_data), inner_expr@, colored, b)),
{
    let ghost spec = |b: bool| stripping_spec(op, value@, data_view(operation_data), inner_expr@, colored, b);
    if value.is_empty() {
        let r = String::from_str(value);
        assert(same_result(Ok(r), spec(false)));
        return Ok(r);
    }
    match operation_data {
        Some(pattern) => {
            let v = chars_of(value);
            let p = chars_of(pattern);
            let starts = p.len() <= v.len() && vec_eq(&head_of(&v, p.len()), &p);
            let ends = p.len() <= v.len() && vec_eq(&tail_of(&v, v.len() - p.len()), &p);
            let (new_value, color) = if op == '#' && starts {
                (tail_of(&v, p.len()), TextColor::Blue)
            } else if op == '%' && ends {
                (head_of(&v, v.len() - p.len()), TextColor::Blue)
            } else if op == '%' || op == '#' {
                (v, TextColor::Red)
            } else {
                let m = invalid_operation(inner_expr, op);
                assert(same_result(Err(m), spec(false)));
                return Err(m);
            };
            let r = colorize_text(colored, string_of(&new_value), color);
            let ghost b = choose|b: bool| r@ == #[trigger] colorize(colored, new_value@, color, b);
            assert(same_result(Ok(r), spec(b)));
            Ok(r)
        },
        None => {
            let r = String::from_str(value);
            assert(same_result(Ok(r), spec(false)));
            Ok(r)
        },
    }
}

/// The state of the reading of `pattern/replacement`: the two parts read so far, whether the
/// `/` that starts the replacement was seen, and whether the last character was an escaping
/// `\`.
pub struct SplitState {
    pub pattern: Seq<char>,
    pub replacement: Seq<char>,
    pub in_replacement: bool,
    pub escaped: bool,
}

/// Reads one more character of `pattern/replacement`: after `\` a character is taken as it
/// is; an unescaped `\` escapes the next character; an unescaped `/` starts (or continues)
/// the replacement and is dropped; other characters go to the current part.
pub open spec fn split_step(st: SplitState, c: char) -> SplitState {
    if !st.escaped && c == '\\' {
        SplitState { escaped: true, ..st }
    } else if !st.escaped && c == '/' {
        SplitState { in_replacement: true, ..st }
    } else if st.in_replacement {
        SplitState { replacement: st.replacement.push(c), escaped: false, ..st }
    } else {
        SplitState { pattern: st.pattern.push(c), escaped: false, ..st }
    }
}

/// The state after reading the first `n` characters of `s`.
pub open spec fn split_prefix(s: Seq<char>, n: int) -> SplitState
    decreases n,
{
    if n <= 0 {
        SplitState { pattern: Seq::empty(), replacement: Seq::empty(), in_replacement: false, escaped: false }
    } else {
        split_step(split_prefix(s, n - 1), s[n - 1])
    }
}

/// Which form of replacement `operation_data` asks for: `/` for `//` (all matches), `#` (at
/// the start), `%` (at the end), or a space (the first match).
pub open spec fn replace_kind(d: Seq<char>) -> char {
    if d.len() >= 2 && d[0] == '/' && d[1] == '/' {
        '/'
    } else if d.len() >= 1 && d[0] == '#' {
        '#'
    } else if d.len() >= 1 && d[0] == '%' {
        '%'
    } else {
        ' '
    }
}

/// `operation_data` without the characters that name its form.
pub open spec fn replace_body(d: Seq<char>) -> Seq<char> {
    let kind = replace_kind(d);
    if kind == '/' {
        d.skip(2)
    } else if kind == '#' || kind == '%' {
        d.skip(1)
    } else {
        d
    }
}

/// `${VAR/pattern/replacement}` and its forms `//` (all matches), `/#` (match at the start)
/// and `/%` (match at the end). The result is blue when the value changed, red when not.
pub open spec fn replacement_spec(
    value: Seq<char>,
    data: Option<Seq<char>>,
    inner: Seq<char>,
    colored: bool,
    b: bool,
) -> Result<Seq<char>, Seq<char>> {
    if value.len() == 0 {
        Ok(value)
    } else {
        match data {
            None => Ok(value),
            Some(d) => {
                let kind = replace_kind(d);
                let body = replace_body(d);
                let st = split_prefix(body, body.len() as int);
                let p = st.pattern;
                let rep = st.replacement;
                if st.escaped {
                    Err("\""@ + inner + "\" - Trailing backslash"@)
                } else if kind == ' ' || kind == '/' {
                    let t = if kind == ' ' {
                        replace_first(value, p, rep)
                    } else {
                        replace_all(value, p, rep)
                    };
                    Ok(colorize(colored, t, if t == value { TextColor::Red } else { TextColor::Blue }, b))
                } else if kind == '#' {
                    if prefix_of(p, value) {
                        Ok(colorize(colored, replace_first(value, p, rep), TextColor::Blue, b))
                    } else {
                        Ok(colorize(colored, value, TextColor::Red, b))
                    }
                } else {
                    if suffix_of(p, value) {
                        Ok(colorize(colored, value.take(value.len() - p.len()) + rep, TextColor::Blue, b))
                    } else {
                        Ok(colorize(colored, value, TextColor::Red, b))
                    }
                }
            },
        }
    }
}

/// Replaces a pattern in `value` as `operation_data` (`pattern/replacement`, `/pattern/...`,
/// `#pattern/...` or `%pattern/...`) says; see [`replacement_spec`].
pub fn process_pattern_replacement(
    value: &str,
    operation_data: Option<&str>,
    inner_expr: &str,
    colored: bool,
) -> (r: Result<String, String>)
    ensures
        exists|b: bool| same_result(r, #[trigger] replacement_spec(value@, data_view(operation_data), inner_expr@, colored, b)),
{
    let ghost spec = |b: bool| replacement_spec(value@, data_view(operation_data), inner_expr@, colored, b);
    if value.is_empty() {
        let r = String::from_str(value);
        assert(same_result(Ok(r), spec(false)));
        return Ok(r);
    }
    let replace_data = match operation_data {
        Some(d) => d,
        None => {
            let r = String::from_str(value);
            assert(same_result(Ok(r), spec(false)));
            return Ok(r);
        },
    };
    let d = chars_of(replace_data);
    let (kind, start): (char, usize) = if d.len() >= 2 && d[0] == '/' && d[1] == '/' {
        ('/', 2)
    } else if d.len() >= 1 && d[0] == '#' {
        ('#', 1)
    } else if d.len() >= 1 && d[0] == '%' {
        ('%', 1)
    } else {
        (' ', 0)
    };
    let body = tail_of(&d, start);
    assert(kind == replace_kind(d@));
    assert(body@ == replace_body(d@));
    let mut pattern: Vec<char> = Vec::new();
    let mut replacement: Vec<char> = Vec::new();
    let mut in_replacement = false;
    let mut escape_next = false;
    let mut i: usize = 0;
    while i < body.len()
        invariant
            0 <= i <= body@.len(),
            split_prefix(body@, i as int) == (SplitState {
                pattern: pattern@,
                replacement: replacement@,
                in_replacement,
                escaped: escape_next,
            }),
        decreases body@.len() - i,
    {
        let c = body[i];
        if !escape_next && c == '\\' {
            escape_next = true;
        } else if !escape_next && c == '/' {
            in_replacement = true;
        } else if in_replacement {
            replacement.push(c);
            escape_next = false;
        } else {
            pattern.push(c);
            escape_next = false;
        }
        i = i + 1;
    }
    assert(body@.len() == i);
    let ghost st = split_prefix(body@, body@.len() as int);
    assert(st.pattern == pattern@ && st.replacement == replacement@ && st.escaped == escape_next);
    if escape_next {
        let mut m = String::from_str("\"");
        m.append(inner_expr);
        m.append("\" - Trailing backslash");
        assert(same_result(Err(m), spec(false)));
        return Err(m);
    }
    let v = chars_of(value);
    let (new_value, color) = if kind == ' ' || kind == '/' {
        let t = if kind == ' ' {
            replace_first_exec(&v, &pattern, &replacement)
        } else {
            replace_all_exec(&v, &pattern, &replacement)
        };
        let same = vec_eq(&t, &v);
        (t, if same { TextColor::Red } else { TextColor::Blue })
    } else if kind == '#' {
        if pattern.len() <= v.len() && vec_eq(&head_of(&v, pattern.len()), &pattern) {
            (replace_first_exec(&v, &pattern, &replacement), TextColor::Blue)
        } else {
            (v, TextColor::Red)
        }
    } else {
        if pattern.len() <= v.len() && vec_eq(&tail_of(&v, v.len() - pattern.len()), &pattern) {
            let mut t = head_of(&v, v.len() - pattern.len());
            extend_vec(&mut t, &replacement);
            (t, TextColor::Blue)
        } else {
            (v, TextColor::Red)
        }
    };
    let r = colorize_text(colored, string_of(&new_value), color);
    let ghost b = choose|b: bool| r@ == #[trigger] colorize(colored, new_value@, color, b);
    assert(same_result(Ok(r), spec(b)));
    Ok(r)
}

/// The color that marks a converted text: red when the conversion left it unchanged, blue
/// when it changed it.
pub open spec fn change_color(value: Seq<char>, converted: Seq<char>) -> TextColor {
    if converted == value {
        TextColor::Red
    } else {
        TextColor::Blue
    }
}

/// The first character of a value in lower case: an ASCII letter by the ASCII mapping,
/// any other character by Unicode's mapping (which may give more than one character).
pub open spec fn first_lower(c: char) -> Seq<char> {
    if is_ascii_char(c) {
        seq![ascii_lower(c)]
    } else {
        unicode_lowercase(seq![c])
    }
}

/// The first character of a value in upper case; see [`first_lower`].
pub open spec fn first_upper(c: char) -> Seq<char> {
    if is_ascii_char(c) {
        seq![ascii_upper(c)]
    } else {
        unicode_uppercase(seq![c])
    }
}

/// `${VAR,}` and `${VAR^}` (the first character in lower or upper case), `${VAR,,}` and
/// `${VAR^^}` (the whole value); the value unchanged, in magenta, when there is no
/// operation data.
pub open spec fn case_spec(
    op: char,
    value: Seq<char>,
    data: Option<Seq<char>>,
    inner: Seq<char>,
    colored: bool,
    b: bool,
) -> Result<Seq<char>, Seq<char>> {
    if value.len() == 0 {
        Ok(value)
    } else {
        match data {
            None => Ok(colorize(colored, value, TextColor::Magenta, b)),
            Some(d) => if op == ',' && d.len() == 0 {
                let t = first_lower(value[0]) + value.drop_first();
                Ok(colorize(colored, t, change_color(value, t), b))
            } else if op == '^' && d.len() == 0 {
                let t = first_upper(value[0]) + value.drop_first();
                Ok(colorize(colored, t, change_color(value, t), b))
            } else if op == ',' && d == seq![','] {
                let t = unicode_lowercase(value);
                Ok(colorize(colored, t, change_color(value, t), b))
            } else if op == '^' && d == seq!['^'] {
                let t = unicode_uppercase(value);
                Ok(colorize(colored, t, change_color(value, t), b))
            } else {
                Err(invalid_op_message(inner, op))
            },
        }
    }
}

/// `converted`, the value after a case conversion, colored by whether it differs from `value`.
pub fn case_conversion_outcome(value: &str, converted: String, colored: bool) -> (r: String)
    ensures
        exists|b: bool| r@ == #[trigger] colorize(colored, converted@, change_color(value@, converted@), b),
{
    let same = str_eq(converted.as_str(), value);
    let color = if same { TextColor::Red } else { TextColor::Blue };
    colorize_text(colored, converted, color)
}

fn invalid_operation(inner_expr: &str, op: char) -> (m: String)
    ensures
        m@ == invalid_op_message(inner_expr@, op),
{
    let mut m = String::from_str("\"");
    m.append(inner_expr);
    m.append("\" - Invalid operation: '");
    let mut opv: Vec<char> = Vec::new();
    opv.push(op);
    m.append(string_of(&opv).as_str());
    m.append("'");
    m
}

/// Converts the case of `value` as `op` (`,` or `^`) and `operation_data` say; see
/// [`case_spec`].
pub fn process_case_conversion(
    op: char,
    value: &str,
    operation_data: Option<&str>,
    inner_expr: &str,
    colored: bool,
) -> (r: Result<String, String>)
    ensures
        exists|b: bool| same_result(r, #[trigger] case_spec(op, value@, data_view(operation_data), inner_expr@, colored, b)),
{
    let ghost spec = |b: bool| case_spec(op, value@, data_view(operation_data), inner_expr@, colored, b);
    if value.is_empty() {
        let r = String::from_str(value);
        assert(same_result(Ok(r), spec(false)));
        return Ok(r);
    }
    let d = match operation_data {
        None => {
            let r = colorize_text(colored, String::from_str(value), TextColor::Magenta);
            let ghost b = choose|b: bool| r@ == #[trigger] colorize(colored, value@, TextColor::Magenta, b);
            assert(same_result(Ok(r), spec(b)));
            return Ok(r);
        },
        Some(d) => d,
    };
    let dv = chars_of(d);
    if (op == ',' || op == '^') && dv.len() == 0 {
        let v = chars_of(value);
        let c = v[0];
        let mut t: Vec<char> = Vec::new();
        if (c as u32) < 128 {
            t.push(if op == ',' { to_ascii_lower(c) } else { to_ascii_upper(c) });
            assert(t@ =~= if op == ',' { first_lower(c) } else { first_upper(c) });
        } else {
            let mut cv: Vec<char> = Vec::new();
            cv.push(c);
            let cs = string_of(&cv);
            assert(cs@ =~= seq![c]);
            let mapped = if op == ',' { to_lowercase(cs.as_str()) } else { to_uppercase(cs.as_str()) };
            t = chars_of(mapped.as_str());
        }
        assert(t@ == if op == ',' { first_lower(c) } else { first_upper(c) });
        let rest = tail_of(&v, 1);
        extend_vec(&mut t, &rest);
        let r = case_conversion_outcome(value, string_of(&t), colored);
        let ghost b = choose|b: bool| r@ == #[trigger] colorize(colored, t@, change_color(value@, t@), b);
        assert(same_result(Ok(r), spec(b)));
        return Ok(r);
    }
    if op == ',' && dv.len() == 1 && dv[0] == ',' {
        assert(dv@ =~= seq![',']);
        let t = to_lowercase(value);
        let r = case_conversion_outcome(value, t, colored);
        let ghost b = choose|b: bool| r@ == #[trigger] colorize(colored, t@, change_color(value@, t@), b);
        assert(same_result(Ok(r), spec(b)));
        return Ok(r);
    }
    if op == '^' && dv.len() == 1 && dv[0] == '^' {
        assert(dv@ =~= seq!['^']);
        let t = to_uppercase(value);
        let r = case_conversion_outcome(value, t, colored);
        let ghost b = choose|b: bool| r@ == #[trigger] colorize(colored, t@, change_color(value@, t@), b);
        assert(same_result(Ok(r), spec(b)));
        return Ok(r);
    }
    proof {
        if op == ',' && d@ == seq![','] {
            assert(dv@.len() == 1 && dv@[0] == ',');
        }
        if op == '^' && d@ == seq!['^'] {
            assert(dv@.len() == 1 && dv@[0] == '^');
        }
    }
    let m = invalid_operation(inner_expr, op);
    assert(same_result(Err(m), spec(false)));
    Err(m)
}

/// The characters of an optional string.
pub open spec fn string_data_view(d: Option<&String>) -> Option<Seq<char>> {
    match d {
        Some(s) => Some(s@),
        None => None,
    }
}

/// The error about the offset or the length of a substring.
pub open spec fn substring_error_message(inner: Seq<char>, what: Seq<char>) -> Seq<char> {
    "\"${"@ + inner + "}\" - "@ + what
}

/// The start offset and the length of `${VAR:offset}` and `${VAR:offset:length}`, or the
/// error for them.
pub open spec fn offset_and_length(d: Seq<char>, inner: Seq<char>) -> Result<(nat, Option<nat>), Seq<char>> {
    let (first, second) = split_once(d, ':');
    match parse_usize_spec(first) {
        None => Err(substring_error_message(inner, "invalid start offset"@)),
        Some(start) => match second {
            None => Ok((start, None)),
            Some(l) => match parse_usize_spec(l) {
                None => Err(substring_error_message(inner, "Invalid length"@)),
                Some(n) => Ok((start, Some(n))),
            },
        },
    }
}

/// `${VAR:offset}` and `${VAR:offset:length}`: the characters of the value from `offset` on,
/// at most `length` of them, in blue.
pub open spec fn substring_spec(
    value: Seq<char>,
    data: Option<Seq<char>>,
    inner: Seq<char>,
    colored: bool,
    b: bool,
) -> Result<Seq<char>, Seq<char>> {
    if value.len() == 0 {
        Ok(value)
    } else {
        match data {
            None => Ok(value),
            Some(d) => match offset_and_length(d, inner) {
                Err(e) => Err(e),
                Ok((start, len)) => {
                    let rest = value.skip(if start <= value.len() { start as int } else { value.len() as int });
                    let taken = match len {
                        Some(n) => rest.take(if n <= rest.len() { n as int } else { rest.len() as int }),
                        None => rest,
                    };
                    Ok(colorize(colored, taken, TextColor::Blue, b))
                },
            },
        }
    }
}

fn substring_error(inner_expr: &str, what: &str) -> (m: String)
    ensures
        m@ == substring_error_message(inner_expr@, what@),
{
    let mut m = String::from_str("\"${");
    m.append(inner_expr);
    m.append("}\" - ");
    m.append(what);
    m
}

/// Takes a part of `value` as `operation_data` (`offset` or `offset:length`) says; see
/// [`substring_spec`].
pub fn process_substring_extraction(
    value: &str,
    operation_data: Option<&String>,
    inner_expr: &str,
    colored: bool,
) -> (r: Result<String, String>)
    ensures
        exists|b: bool| same_result(r, #[trigger] substring_spec(value@, string_data_view(operation_data), inner_expr@, colored, b)),
{
    let ghost spec = |b: bool| substring_spec(value@, string_data_view(operation_data), inner_expr@, colored, b);
    if value.is_empty() {
        let r = String::from_str(value);
        assert(same_result(Ok(r), spec(false)));
        return Ok(r);
    }
    let data = match operation_data {
        None => {
            let r = String::from_str(value);
            assert(same_result(Ok(r), spec(false)));
            return Ok(r);
        },
        Some(data) => data,
    };
    let d = chars_of(data.as_str());
    let mut i: usize = 0;
    while i < d.len() && d[i] != ':'
        invariant
            0 <= i <= d@.len(),
            forall|j: int| 0 <= j < i ==> d@[j] != ':',
        decreases d@.len() - i,
    {
        i = i + 1;
    }
    proof {
        lemma_split_once(d@, ':', i as int);
        if i == d@.len() {
            assert(d@.take(i as int) =~= d@);
        }
    }
    let first = head_of(&d, i);
    assert(first@ == split_once(data@, ':').0);
    let start = match parse_usize(&first) {
        Some(n) => n,
        None => {
            let m = substring_error(inner_expr, "invalid start offset");
            assert(same_result(Err(m), spec(false)));
            return Err(m);
        },
    };
    let len: Option<usize> = if i < d.len() {
        let second = tail_of(&d, i + 1);
        match parse_usize(&second) {
            Some(n) => Some(n),
            None => {
                let m = substring_error(inner_expr, "Invalid length");
                assert(same_result(Err(m), spec(false)));
                return Err(m);
            },
        }
    } else {
        None
    };
    assert(offset_and_length(data@, inner_expr@) == Ok::<(nat, Option<nat>), Seq<char>>((start as nat, match len {
        Some(n) => Some(n as nat),
        None => None,
    })));
    let v = chars_of(value);
    let from: usize = if start <= v.len() { start } else { v.len() };
    let rest = tail_of(&v, from);
    let taken = match len {
        Some(n) => head_of(&rest, if n <= rest.len() { n } else { rest.len() }),
        None => rest,
    };
    let r = colorize_text(colored, string_of(&taken), TextColor::Blue);
    let ghost b = choose|b: bool| r@ == #[trigger] colorize(colored, taken@, TextColor::Blue, b);
    assert(same_result(Ok(r), spec(b)));
    Ok(r)
}

/// A character that starts the operation of a braced variable.
pub open spec fn is_op_char(c: char) -> bool {
    c == '#' || c == '%' || c == '/' || c == ',' || c == ':' || c == '=' || c == '^'
}

/// The text of a braced variable read as a name, then optionally an operation character and
/// the operation data (the rest of the text); the error is the first character that is
/// neither a name character nor an operation.
pub open spec fn parse_inner(s: Seq<char>) -> Result<(Seq<char>, Option<(char, Seq<char>)>), char> {
    let e = ident_end(s, 0);
    if e >= s.len() {
        Ok((s, None))
    } else if is_op_char(s[e]) {
        Ok((s.take(e), Some((s[e], s.skip(e + 1)))))
    } else {
        Err(s[e])
    }
}

/// What the operation `op` makes of the value `value` of a braced variable whose text is
/// `inner`; no operation leaves the value as it is.
pub open spec fn op_result(
    value: Seq<char>,
    op: Option<(char, Seq<char>)>,
    inner: Seq<char>,
    colored: bool,
    b: bool,
) -> Result<Seq<char>, Seq<char>> {
    match op {
        None => Ok(value),
        Some((c, d)) => if c == '#' || c == '%' {
            stripping_spec(c, value, Some(d), inner, colored, b)
        } else if c == '/' {
            replacement_spec(value, Some(d), inner, colored, b)
        } else if c == ',' || c == '^' {
            case_spec(c, value, Some(d), inner, colored, b)
        } else if d.len() > 0 && d[0] == '-' {
            if value.len() == 0 {
                Ok(colorize(colored, d.drop_first(), TextColor::Yellow, b))
            } else {
                Ok(colorize(colored, value, TextColor::Green, b))
            }
        } else {
            substring_spec(value, Some(d), inner, colored, b)
        },
    }
}

/// The error for a character that cannot stand in a braced variable.
pub open spec fn invalid_char_message(c: char) -> Seq<char> {
    "Invalid character in expression: "@ + seq![c]
}

/// What the braced variable with the text `inner` (between `${` and `}`) is replaced with.
///
/// The operation is applied to the variable's value (empty when it is not set); `=` is not
/// an operation of this form. A variable that the filters exclude is kept as written, in
/// magenta; otherwise the flags apply to the result, by whether the variable is set, as
/// [`handle_spec`] says. `b1` and `b2`
/// tell whether the two colorings that may take place colored their text.
pub open spec fn inner_spec(
    inner: Seq<char>,
    fl: Map<Flag, (Seq<char>, Option<bool>)>,
    fi: FiltersView,
    env: Map<Seq<char>, Seq<char>>,
    b1: bool,
    b2: bool,
) -> Result<Seq<char>, Seq<char>> {
    match parse_inner(inner) {
        Err(c) => Err(invalid_char_message(c)),
        Ok((name, op)) => if op matches Some((c, _)) && c == '=' {
            Err("Invalid operation: ="@)
        } else {
            let colored = flag_on(fl, Flag::Color);
            let original = "${"@ + name + "}"@;
            if filter_match(fi, name) == Some(false) {
                Ok(colorize(colored, original, TextColor::Magenta, b1))
            } else {
                match op_result(value_or_empty(env, name), op, inner, colored, b1) {
                    Err(e) => Err(e),
                    Ok(v) => handle_spec(v, env.contains_key(name), name, original, fl, b2),
                }
            }
        },
    }
}

fn apply_operation(
    op: char,
    value: &str,
    data: &String,
    inner_expr: &str,
    colored: bool,
) -> (r: Result<String, String>)
    requires
        is_op_char(op),
        op != '=',
    ensures
        exists|b: bool| same_result(r, #[trigger] op_result(value@, Some((op, data@)), inner_expr@, colored, b)),
{
    let ghost spec = |b: bool| op_result(value@, Some((op, data@)), inner_expr@, colored, b);
    if op == '#' || op == '%' {
        let r = process_pattern_stripping(op, value, Some(data.as_str()), inner_expr, colored);
        let ghost b = choose|b: bool| same_result(r, #[trigger] stripping_spec(op, value@, Some(data@), inner_expr@, colored, b));
        assert(same_result(r, spec(b)));
        return r;
    }
    if op == '/' {
        let r = process_pattern_replacement(value, Some(data.as_str()), inner_expr, colored);
        let ghost b = choose|b: bool| same_result(r, #[trigger] replacement_spec(value@, Some(data@), inner_expr@, colored, b));
        assert(same_result(r, spec(b)));
        return r;
    }
    if op == ',' || op == '^' {
        let r = process_case_conversion(op, value, Some(data.as_str()), inner_expr, colored);
        let ghost b = choose|b: bool| same_result(r, #[trigger] case_spec(op, value@, Some(data@), inner_expr@, colored, b));
        assert(same_result(r, spec(b)));
        return r;
    }
    let d = chars_of(data.as_str());
    if d.len() > 0 && d[0] == '-' {
        let default_value = tail_of(&d, 1);
        if value.is_empty() {
            let r = colorize_text(colored, string_of(&default_value), TextColor::Yellow);
            let ghost b = choose|b: bool| r@ == #[trigger] colorize(colored, default_value@, TextColor::Yellow, b);
            assert(same_result(Ok(r), spec(b)));
            return Ok(r);
        }
        let r = colorize_text(colored, String::from_str(value), TextColor::Green);
        let ghost b = choose|b: bool| r@ == #[trigger] colorize(colored, value@, TextColor::Green, b);
        assert(same_result(Ok(r), spec(b)));
        return Ok(r);
    }
    let r = process_substring_extraction(value, Some(data), inner_expr, colored);
    let ghost b = choose|b: bool| same_result(r, #[trigger] substring_spec(value@, Some(data@), inner_expr@, colored, b));
    assert(same_result(r, spec(b)));
    r
}

fn is_op(c: char) -> (r: bool)
    ensures
        r == is_op_char(c),
{
    c == '#' || c == '%' || c == '/' || c == ',' || c == ':' || c == '=' || c == '^'
}

/// Processes the text `inner_expr` of a braced variable (between `${` and `}`); see
/// [`inner_spec`].
pub fn process_inner_expression(
    inner_expr: &str,
    flags: &Flags,
    filters: &Filters,
    env: &Environment,
) -> (r: Result<String, String>)
    ensures
        exists|b1: bool, b2: bool| same_result(r, #[trigger] inner_spec(inner_expr@, flags@, filters@, env@, b1, b2)),
{
    let ghost spec = |b1: bool, b2: bool| inner_spec(inner_expr@, flags@, filters@, env@, b1, b2);
    let s = chars_of(inner_expr);
    let mut i: usize = 0;
    while i < s.len() && (ascii_alnum(s[i]) || s[i] == '_')
        invariant
            0 <= i <= s@.len(),
            forall|j: int| 0 <= j < i ==> is_name_char(#[trigger] s@[j]),
        decreases s@.len() - i,
    {
        i = i + 1;
    }
    proof {
        lemma_ident_end_at(s@, 0, i as int);
    }
    let name_v = head_of(&s, i);
    let var_name = string_of(&name_v);
    if i < s.len() && !is_op(s[i]) {
        let mut m = String::from_str("Invalid character in expression: ");
        let mut cv: Vec<char> = Vec::new();
        cv.push(s[i]);
        m.append(string_of(&cv).as_str());
        assert(same_result(Err(m), spec(false, false)));
        return Err(m);
    }
    let colored = flags.is_flag_set(Flag::Color);
    let found = env.get(var_name.as_str());
    let is_set = found.is_some();
    let value = match found {
        Some(v) => v,
        None => String::new(),
    };
    assert(value@ == value_or_empty(env@, var_name@));
    let mut data = String::new();
    let result = if i < s.len() {
        let op = s[i];
        if op == '=' {
            let m = String::from_str("Invalid operation: =");
            assert(same_result(Err(m), spec(false, false)));
            return Err(m);
        }
        data = string_of(&tail_of(&s, i + 1));
        apply_operation(op, value.as_str(), &data, inner_expr, colored)
    } else {
        assert(s@.take(i as int) =~= s@);
        Ok(value)
    };
    let ghost op = if i < s@.len() { Some((s@[i as int], s@.skip(i + 1))) } else { None::<(char, Seq<char>)> };
    assert(parse_inner(inner_expr@) == Ok::<(Seq<char>, Option<(char, Seq<char>)>), char>((var_name@, op)));
    let ghost b1 = choose|b: bool| same_result(result, #[trigger] op_result(value@, op, inner_expr@, colored, b));
    let mut original = String::from_str("${");
    original.append(var_name.as_str());
    original.append("}");
    if filters.matches(var_name.as_str()) == Some(false) {
        let r = colorize_text(colored, original, TextColor::Magenta);
        let ghost b = choose|b: bool| r@ == #[trigger] colorize(colored, original@, TextColor::Magenta, b);
        assert(same_result(Ok(r), spec(b, false)));
        return Ok(r);
    }
    let result = match result {
        Ok(v) => v,
        Err(e) => {
            assert(same_result(Err(e), spec(b1, false)));
            return Err(e);
        },
    };
    let r = handle_flags_on_result(result, is_set, var_name.as_str(), original.as_str(), flags);
    let ghost b2 = choose|b: bool| same_result(r, #[trigger] handle_spec(result@, is_set, var_name@, original@, flags@, b));
    assert(same_result(r, spec(b1, b2)));
    r
}

/// A character that neither escapes nor separates in `pattern/replacement`.
pub open spec fn plain_char(c: char) -> bool {
    c != '/' && c != '\\'
}

proof fn lemma_split_plain(body: Seq<char>, n: int)
    requires
        0 <= n <= body.len(),
        forall|j: int| 0 <= j < n ==> plain_char(#[trigger] body[j]),
    ensures
        split_prefix(body, n) == (SplitState {
            pattern: body.take(n),
            replacement: Seq::empty(),
            in_replacement: false,
            escaped: false,
        }),
    decreases n,
{
    if n > 0 {
        lemma_split_plain(body, n - 1);
        assert(plain_char(body[n - 1]));
        assert(body.take(n - 1).push(body[n - 1]) =~= body.take(n));
    } else {
        assert(body.take(0) =~= Seq::<char>::empty());
    }
}

proof fn lemma_split_after(body: Seq<char>, p: Seq<char>, m: int, n: int)
    requires
        0 <= m <= n <= body.len(),
        split_prefix(body, m) == (SplitState { pattern: p, replacement: Seq::empty(), in_replacement: true, escaped: false }),
        forall|j: int| m <= j < n ==> plain_char(#[trigger] body[j]),
    ensures
        split_prefix(body, n) == (SplitState {
            pattern: p,
            replacement: body.subrange(m, n),
            in_replacement: true,
            escaped: false,
        }),
    decreases n - m,
{
    if n > m {
        lemma_split_after(body, p, m, n - 1);
        assert(plain_char(body[n - 1]));
        assert(body.subrange(m, n - 1).push(body[n - 1]) =~= body.subrange(m, n));
    } else {
        assert(body.subrange(m, m) =~= Seq::<char>::empty());
    }
}

/// `replace_first` replaces the first occurrence of a non-empty pattern.
proof fn lemma_replace_first_at(s: Seq<char>, p: Seq<char>, r: Seq<char>, i: int)
    requires
        p.len() > 0,
        occurs_at(s, p, i),
        forall|j: int| 0 <= j < i ==> !#[trigger] occurs_at(s, p, j),
    ensures
        replace_first(s, p, r) == s.take(i) + r + s.skip(i + p.len()),
    decreases i,
{
    if i == 0 {
        assert(s.take(p.len() as int) =~= s.subrange(0, p.len() as int));
        assert(s.take(0) + r =~= r);
    } else {
        assert(!occurs_at(s, p, 0));
        assert(!prefix_of(p, s)) by {
            if prefix_of(p, s) {
                assert(s.take(p.len() as int) =~= s.subrange(0, p.len() as int));
            }
        }
        let t = s.drop_first();
        assert forall|j: int| 0 <= j < i - 1 implies !#[trigger] occurs_at(t, p, j) by {
            assert(!occurs_at(s, p, j + 1));
            if j + p.len() <= t.len() {
                assert(t.subrange(j, j + p.len()) =~= s.subrange(j + 1, j + 1 + p.len()));
            }
        }
        assert(t.subrange(i - 1, i - 1 + p.len()) =~= s.subrange(i, i + p.len()));
        lemma_replace_first_at(t, p, r, i - 1);
        assert(seq![s[0]] + (t.take(i - 1) + r + t.skip(i - 1 + p.len())) =~= s.take(i) + r + s.skip(i + p.len()));
    }
}

/// `${VAR/pattern}` deletes the first occurrence of `pattern` in the value, and
/// `${VAR/pattern/replacement}` puts `replacement` in its place (without colors; for a
/// pattern and a replacement without `/` or `\`, the pattern not starting with `#` or `%`).
/// `i` is where the pattern first occurs.
pub proof fn law_replacement_first_match(
    value: Seq<char>,
    p: Seq<char>,
    r: Seq<char>,
    i: int,
    inner: Seq<char>,
    b: bool,
)
    requires
        p.len() > 0,
        p[0] != '#' && p[0] != '%',
        forall|j: int| 0 <= j < p.len() ==> plain_char(#[trigger] p[j]),
        forall|j: int| 0 <= j < r.len() ==> plain_char(#[trigger] r[j]),
        occurs_at(value, p, i),
        forall|j: int| 0 <= j < i ==> !#[trigger] occurs_at(value, p, j),
    ensures
        replacement_spec(value, Some(p), inner, false, b) == Ok::<Seq<char>, Seq<char>>(
            value.take(i) + value.skip(i + p.len()),
        ),
        replacement_spec(value, Some(p + seq!['/'] + r), inner, false, b) == Ok::<Seq<char>, Seq<char>>(
            value.take(i) + r + value.skip(i + p.len()),
        ),
{
    // The data without a replacement.
    assert(replace_kind(p) == ' ') by {
        assert(plain_char(p[0]));
    }
    lemma_split_plain(p, p.len() as int);
    assert(p.take(p.len() as int) =~= p);
    lemma_replace_first_at(value, p, Seq::empty(), i);
    assert(value.take(i) + Seq::<char>::empty() =~= value.take(i));
    // The data with a replacement.
    let d = p + seq!['/'] + r;
    assert(d[0] == p[0]);
    assert(replace_kind(d) == ' ') by {
        assert(plain_char(p[0]));
    }
    lemma_split_pattern_replacement(p, r);
    lemma_replace_first_at(value, p, r, i);
}

/// `pattern/replacement`, both without `/` or `\`, is read as its two parts.
proof fn lemma_split_pattern_replacement(p: Seq<char>, r: Seq<char>)
    requires
        forall|j: int| 0 <= j < p.len() ==> plain_char(#[trigger] p[j]),
        forall|j: int| 0 <= j < r.len() ==> plain_char(#[trigger] r[j]),
    ensures
        ({
            let d = p + seq!['/'] + r;
            split_prefix(d, d.len() as int) == (SplitState { pattern: p, replacement: r, in_replacement: true, escaped: false })
        }),
{
    let d = p + seq!['/'] + r;
    assert forall|j: int| 0 <= j < p.len() implies plain_char(#[trigger] d[j]) by {
        assert(d[j] == p[j]);
    }
    lemma_split_plain(d, p.len() as int);
    assert(d.take(p.len() as int) =~= p);
    assert(d[p.len() as int] == '/');
    assert(split_prefix(d, (p.len() + 1) as int) == (SplitState { pattern: p, replacement: Seq::<char>::empty(), in_replacement: true, escaped: false }));
    assert forall|j: int| p.len() + 1 <= j < d.len() implies plain_char(#[trigger] d[j]) by {
        assert(d[j] == r[j - p.len() - 1]);
    }
    lemma_split_after(d, p, (p.len() + 1) as int, d.len() as int);
    assert(d.subrange((p.len() + 1) as int, d.len() as int) =~= r);
}

/// `${VAR/#pattern/replacement}` puts `replacement` in place of the pattern at the start of
/// the value, and `${VAR/%pattern/replacement}` in place of the pattern at its end (without
/// colors; for a pattern and a replacement without `/` or `\`).
pub proof fn law_anchored_replacement(w: Seq<char>, p: Seq<char>, r: Seq<char>, inner: Seq<char>, b: bool)
    requires
        (w + p).len() > 0,
        forall|j: int| 0 <= j < p.len() ==> plain_char(#[trigger] p[j]),
        forall|j: int| 0 <= j < r.len() ==> plain_char(#[trigger] r[j]),
    ensures
        replacement_spec(p + w, Some(seq!['#'] + (p + seq!['/'] + r)), inner, false, b) == Ok::<Seq<char>, Seq<char>>(r + w),
        replacement_spec(w + p, Some(seq!['%'] + (p + seq!['/'] + r)), inner, false, b) == Ok::<Seq<char>, Seq<char>>(w + r),
{
    let d = p + seq!['/'] + r;
    lemma_split_pattern_replacement(p, r);
    assert(replacement_spec(p + w, Some(seq!['#'] + d), inner, false, b) == Ok::<Seq<char>, Seq<char>>(r + w)) by {
        let dh = seq!['#'] + d;
        assert(replace_kind(dh) == '#');
        assert(dh.skip(1) =~= d);
        let u = p + w;
        assert(u.take(p.len() as int) =~= p);
        if p.len() > 0 {
            assert(u.subrange(0, p.len() as int) =~= p);
            lemma_replace_first_at(u, p, r, 0);
            assert(u.take(0) + r + u.skip(p.len() as int) =~= r + w);
        }
    }
    assert(replacement_spec(w + p, Some(seq!['%'] + d), inner, false, b) == Ok::<Seq<char>, Seq<char>>(w + r)) by {
        let dp = seq!['%'] + d;
        assert(replace_kind(dp) == '%');
        assert(dp.skip(1) =~= d);
        let v = w + p;
        assert(v.skip(v.len() - p.len()) =~= p);
        assert(v.take(v.len() - p.len()) =~= w);
    }
}

/// `${VAR%suffix}` removes the suffix: what is left, followed by the suffix, is the value.
/// `${VAR#prefix}` removes the prefix likewise. (Without colors.)
pub proof fn law_stripping_removes_affix(w: Seq<char>, p: Seq<char>, inner: Seq<char>, b: bool)
    requires
        (w + p).len() > 0,
    ensures
        stripping_spec('%', w + p, Some(p), inner, false, b) == Ok::<Seq<char>, Seq<char>>(w),
        stripping_spec('#', p + w, Some(p), inner, false, b) == Ok::<Seq<char>, Seq<char>>(w),
{
    let v = w + p;
    assert(v.skip(v.len() - p.len()) =~= p);
    assert(v.take(v.len() - p.len()) =~= w);
    let u = p + w;
    assert(u.take(p.len() as int) =~= p);
    assert(u.skip(p.len() as int) =~= w);
}

/// `${VAR:offset:length}` is the part of the value that starts at `offset` (or at its end)
/// and holds at most `length` characters; `${VAR:offset}` is the value from `offset` on.
/// (Without colors; `a` and `c` are the decimal texts of `offset` and `length`.)
pub proof fn law_substring_window(value: Seq<char>, a: Seq<char>, c: Seq<char>, inner: Seq<char>, b: bool)
    requires
        value.len() > 0,
        !a.contains(':'),
        parse_usize_spec(a) is Some,
        parse_usize_spec(c) is Some,
    ensures
        ({
            let start = parse_usize_spec(a)->0;
            let n = parse_usize_spec(c)->0;
            let s0 = if start <= value.len() { start as int } else { value.len() as int };
            let e = if s0 + n <= value.len() { s0 + n } else { value.len() as int };
            &&& substring_spec(value, Some(a + seq![':'] + c), inner, false, b) == Ok::<Seq<char>, Seq<char>>(
                value.subrange(s0, e),
            )
            &&& e - s0 <= n
            &&& substring_spec(value, Some(a), inner, false, b) == Ok::<Seq<char>, Seq<char>>(
                value.subrange(s0, value.len() as int),
            )
        }),
{
    let d = a + seq![':'] + c;
    assert forall|j: int| 0 <= j < a.len() implies d[j] != ':' by {
        assert(d[j] == a[j]);
        if a[j] == ':' {
            assert(a.contains(a[j]));
        }
    }
    assert(d[a.len() as int] == ':');
    lemma_split_once(d, ':', a.len() as int);
    assert(d.take(a.len() as int) =~= a);
    assert(d.skip((a.len() + 1) as int) =~= c);
    assert forall|j: int| 0 <= j < a.len() implies a[j] != ':' by {
        if a[j] == ':' {
            assert(a.contains(a[j]));
        }
    }
    lemma_split_once(a, ':', a.len() as int);
    assert(a.take(a.len() as int) =~= a);
    let start = parse_usize_spec(a)->0;
    let n = parse_usize_spec(c)->0;
    let s0 = if start <= value.len() { start as int } else { value.len() as int };
    let rest = value.skip(s0);
    assert(rest.take(if n <= rest.len() { n as int } else { rest.len() as int }) =~= value.subrange(
        s0,
        if s0 + n <= value.len() { s0 + n } else { value.len() as int },
    ));
    assert(rest =~= value.subrange(s0, value.len() as int));
}

/// `${VAR,,}` and `${VAR^^}` give the whole value in lower and in upper case, as
/// `str::to_lowercase` and `str::to_uppercase` map it (without colors).
pub proof fn law_case_whole_value(value: Seq<char>, inner: Seq<char>, b: bool)
    requires
        value.len() > 0,
    ensures
        case_spec(',', value, Some(seq![',']), inner, false, b) == Ok::<Seq<char>, Seq<char>>(unicode_lowercase(value)),
        case_spec('^', value, Some(seq!['^']), inner, false, b) == Ok::<Seq<char>, Seq<char>>(unicode_uppercase(value)),
{
}

/// `${VAR,}` and `${VAR^}` change the first character alone and keep the rest of the value
/// as it is: an ASCII first character by the ASCII mapping, any other by Unicode's mapping
/// (without colors).
pub proof fn law_case_first_character(value: Seq<char>, inner: Seq<char>, b: bool)
    requires
        value.len() > 0,
    ensures
        is_ascii_char(value[0]) ==> case_spec(',', value, Some(Seq::empty()), inner, false, b)
            == Ok::<Seq<char>, Seq<char>>(seq![ascii_lower(value[0])] + value.drop_first()),
        is_ascii_char(value[0]) ==> case_spec('^', value, Some(Seq::empty()), inner, false, b)
            == Ok::<Seq<char>, Seq<char>>(seq![ascii_upper(value[0])] + value.drop_first()),
        !is_ascii_char(value[0]) ==> case_spec(',', value, Some(Seq::empty()), inner, false, b)
            == Ok::<Seq<char>, Seq<char>>(unicode_lowercase(seq![value[0]]) + value.drop_first()),
        !is_ascii_char(value[0]) ==> case_spec('^', value, Some(Seq::empty()), inner, false, b)
            == Ok::<Seq<char>, Seq<char>>(unicode_uppercase(seq![value[0]]) + value.drop_first()),
{
}

} // verus!
