//! Substitution of the variables of a line: `$VAR`, `${VAR}` and the braced forms with an
//! operation, with `$$` as an escape; and the splitting of an input into lines.

use crate::environment::{value_or_empty, Environment};
use crate::filters::{filter_match, Filters, FiltersView};
use crate::flags::{flag_on, Flag, Flags};
use crate::substitute::{ident_end, is_name_char, lemma_ident_end, lemma_ident_end_at, prepend, empty_message, unset_message};
use crate::text::{
    ascii_alnum, ascii_alpha, ascii_digit, chars_of, extend_vec, is_alpha, is_digit, same_result,
    string_of, subrange_of, tail_of,
};
use crate::utils::{colorize, colorize_text, handle_flags_on_result, handle_spec, TextColor};
use crate::variable_expansion::{inner_spec, parse_inner, process_inner_expression};
use vstd::prelude::*;

verus! {

/// A character after `$$` that makes the escape stand for a single `$`: a letter, `_`, `$`,
/// a space or `{`. Before any other character, and at the end of the line, `$$` is kept.
pub open spec fn escape_follower(c: char) -> bool {
    c == '_' || c == '$' || c == ' ' || c == '{' || is_alpha(c)
}

/// The position of the first `}` at or after `k`, or the length of `s` when there is none.
pub open spec fn close_brace(s: Seq<char>, k: int) -> int
    decreases s.len() - k,
{
    if k < 0 || k >= s.len() {
        s.len() as int
    } else if s[k] == '}' {
        k
    } else {
        close_brace(s, k + 1)
    }
}

/// The result of one step of the substitution of a line: the text produced or the error;
/// and the position where the next step starts.
pub struct LineStep {
    pub out: Result<Seq<char>, Seq<char>>,
    pub next: int,
}

/// The step of the substitution of `s` that starts at position `i`.
///
/// `b1` and `b2` tell whether the (at most two) colorings of the step colored their text.
pub open spec fn line_step(
    s: Seq<char>,
    i: int,
    fl: Map<Flag, (Seq<char>, Option<bool>)>,
    fi: FiltersView,
    env: Map<Seq<char>, Seq<char>>,
    b1: bool,
    b2: bool,
) -> LineStep {
    let colored = flag_on(fl, Flag::Color);
    if s[i] != '$' {
        LineStep { out: Ok(seq![s[i]]), next: i + 1 }
    } else if !flag_on(fl, Flag::NoEscape) && i + 1 < s.len() && s[i + 1] == '$' {
        if i + 2 < s.len() && escape_follower(s[i + 2]) {
            LineStep { out: Ok(seq!['$']), next: i + 2 }
        } else {
            LineStep { out: Ok(seq!['$', '$']), next: i + 2 }
        }
    } else if i + 1 < s.len() && s[i + 1] == '{' {
        if i + 2 < s.len() && is_digit(s[i + 2]) {
            LineStep { out: Ok(seq!['$', '{', s[i + 2]]), next: i + 3 }
        } else {
            let j = close_brace(s, i + 2);
            if j >= s.len() {
                LineStep { out: Ok(seq!['$', '{'] + s.subrange(i + 2, s.len() as int)), next: s.len() as int }
            } else {
                LineStep { out: inner_spec(s.subrange(i + 2, j), fl, fi, env, b1, b2), next: j + 1 }
            }
        }
    } else if i + 1 < s.len() && (is_alpha(s[i + 1]) || s[i + 1] == '_') {
        let e = ident_end(s, i + 1);
        let name = s.subrange(i + 1, e);
        let original = seq!['$'] + name;
        if filter_match(fi, name) == Some(false) {
            LineStep { out: Ok(colorize(colored, original, TextColor::Magenta, b1)), next: e }
        } else {
            LineStep {
                out: match handle_spec(value_or_empty(env, name), env.contains_key(name), name, original, fl, b1) {
                    Ok(v) => Ok(colorize(colored, v, TextColor::Green, b2)),
                    Err(m) => Err(m),
                },
                next: e,
            }
        }
    } else {
        LineStep { out: Ok(seq!['$']), next: i + 1 }
    }
}

/// The first choice of `ch`, or none when `ch` is empty.
pub open spec fn first_choice(ch: Seq<(bool, bool)>) -> (bool, bool) {
    if ch.len() > 0 {
        ch[0]
    } else {
        (false, false)
    }
}

/// The choices of `ch` after the first one.
pub open spec fn other_choices(ch: Seq<(bool, bool)>) -> Seq<(bool, bool)> {
    if ch.len() > 0 {
        ch.drop_first()
    } else {
        ch
    }
}

/// The substitution of `s` from position `i` on, step by step, the `k`-th step taking the
/// `k`-th pair of `ch` for its colorings; the first error ends it.
pub open spec fn line_from(
    s: Seq<char>,
    i: int,
    fl: Map<Flag, (Seq<char>, Option<bool>)>,
    fi: FiltersView,
    env: Map<Seq<char>, Seq<char>>,
    ch: Seq<(bool, bool)>,
) -> Result<Seq<char>, Seq<char>>
    decreases s.len() - i,
{
    if i < 0 || i >= s.len() {
        Ok(Seq::empty())
    } else {
        let x = first_choice(ch);
        let st = line_step(s, i, fl, fi, env, x.0, x.1);
        if st.next <= i || st.next > s.len() {
            Ok(Seq::empty())
        } else {
            match st.out {
                Ok(t) => prepend(t, line_from(s, st.next, fl, fi, env, other_choices(ch))),
                Err(e) => Err(e),
            }
        }
    }
}

/// What [`replace_vars_in_line`] returns for the line `s` when the colorings went as `ch`
/// says.
pub open spec fn line_spec(
    s: Seq<char>,
    fl: Map<Flag, (Seq<char>, Option<bool>)>,
    fi: FiltersView,
    env: Map<Seq<char>, Seq<char>>,
    ch: Seq<(bool, bool)>,
) -> Result<Seq<char>, Seq<char>> {
    line_from(s, 0, fl, fi, env, ch)
}

proof fn lemma_close_brace(s: Seq<char>, k: int)
    requires
        0 <= k <= s.len(),
    ensures
        k <= close_brace(s, k) <= s.len(),
        close_brace(s, k) < s.len() ==> s[close_brace(s, k)] == '}',
        forall|m: int| k <= m < close_brace(s, k) ==> s[m] != '}',
    decreases s.len() - k,
{
    if k < s.len() && s[k] != '}' {
        lemma_close_brace(s, k + 1);
    }
}

proof fn lemma_close_brace_at(s: Seq<char>, k: int, j: int)
    requires
        0 <= k <= j <= s.len(),
        forall|m: int| k <= m < j ==> s[m] != '}',
        j < s.len() ==> s[j] == '}',
    ensures
        close_brace(s, k) == j,
    decreases j - k,
{
    if k < j {
        lemma_close_brace_at(s, k + 1, j);
    }
}

proof fn lemma_line_step(
    s: Seq<char>,
    i: int,
    fl: Map<Flag, (Seq<char>, Option<bool>)>,
    fi: FiltersView,
    env: Map<Seq<char>, Seq<char>>,
    b1: bool,
    b2: bool,
)
    requires
        0 <= i < s.len(),
    ensures
        i < line_step(s, i, fl, fi, env, b1, b2).next <= s.len(),
        line_step(s, i, fl, fi, env, b1, b2).next == line_step(s, i, fl, fi, env, false, false).next,
{
    if i + 2 <= s.len() {
        lemma_close_brace(s, i + 2);
    }
    if i + 1 <= s.len() {
        lemma_ident_end(s, i + 1);
    }
}

fn replace_step(
    s: &Vec<char>,
    i: usize,
    flags: &Flags,
    filters: &Filters,
    env: &Environment,
) -> (r: (Result<String, String>, usize))
    requires
        i < s@.len(),
    ensures
        r.1 == line_step(s@, i as int, flags@, filters@, env@, false, false).next,
        exists|b1: bool, b2: bool| same_result(r.0, #[trigger] line_step(s@, i as int, flags@, filters@, env@, b1, b2).out),
{
    let ghost out_of = |b1: bool, b2: bool| line_step(s@, i as int, flags@, filters@, env@, b1, b2).out;
    proof {
        lemma_line_step(s@, i as int, flags@, filters@, env@, false, false);
    }
    let n = s.len();
    let c = s[i];
    if c != '$' {
        let mut cv: Vec<char> = Vec::new();
        cv.push(c);
        let r = string_of(&cv);
        assert(same_result(Ok(r), out_of(false, false)));
        return (Ok(r), i + 1);
    }
    let colored = flags.is_flag_set(Flag::Color);
    if !flags.is_flag_set(Flag::NoEscape) && i + 1 < n && s[i + 1] == '$' {
        let single = i + 2 < n && (s[i + 2] == '_' || s[i + 2] == '$' || s[i + 2] == ' ' || s[i + 2] == '{'
            || ascii_alpha(s[i + 2]));
        let r = if single { String::from_str("$") } else { String::from_str("$$") };
        proof {
            reveal_strlit("$");
            reveal_strlit("$$");
            assert("$"@ =~= seq!['$']);
            assert("$$"@ =~= seq!['$', '$']);
        }
        assert(same_result(Ok(r), out_of(false, false)));
        return (Ok(r), i + 2);
    }
    if i + 1 < n && s[i + 1] == '{' {
        if i + 2 < n && ascii_digit(s[i + 2]) {
            let mut cv: Vec<char> = Vec::new();
            cv.push('$');
            cv.push('{');
            cv.push(s[i + 2]);
            let r = string_of(&cv);
            assert(r@ =~= seq!['$', '{', s@[i + 2]]);
            assert(same_result(Ok(r), out_of(false, false)));
            return (Ok(r), i + 3);
        }
        let mut j: usize = i + 2;
        while j < n && s[j] != '}'
            invariant
                i + 2 <= j <= n,
                n == s@.len(),
                forall|m: int| i + 2 <= m < j ==> s@[m] != '}',
            decreases n - j,
        {
            j = j + 1;
        }
        proof {
            lemma_close_brace_at(s@, i + 2, j as int);
        }
        if j >= n {
            let mut cv: Vec<char> = Vec::new();
            cv.push('$');
            cv.push('{');
            let rest = tail_of(s, i + 2);
            extend_vec(&mut cv, &rest);
            let r = string_of(&cv);
            assert(r@ =~= seq!['$', '{'] + s@.subrange(i + 2, n as int));
            assert(same_result(Ok(r), out_of(false, false)));
            return (Ok(r), n);
        }
        let inner_v = subrange_of(s, i + 2, j);
        let inner = string_of(&inner_v);
        let res = process_inner_expression(inner.as_str(), flags, filters, env);
        let ghost (b1, b2) = choose|b1: bool, b2: bool| same_result(res, #[trigger] inner_spec(inner@, flags@, filters@, env@, b1, b2));
        assert(same_result(res, out_of(b1, b2)));
        return (res, j + 1);
    }
    if i + 1 < n && (ascii_alpha(s[i + 1]) || s[i + 1] == '_') {
        let mut e: usize = i + 1;
        while e < n && (ascii_alnum(s[e]) || s[e] == '_')
            invariant
                i + 1 <= e <= n,
                n == s@.len(),
                forall|m: int| i + 1 <= m < e ==> is_name_char(#[trigger] s@[m]),
            decreases n - e,
        {
            e = e + 1;
        }
        proof {
            lemma_ident_end_at(s@, i + 1, e as int);
        }
        let name_v = subrange_of(s, i + 1, e);
        let name = string_of(&name_v);
        let mut original = String::from_str("$");
        original.append(name.as_str());
        proof {
            reveal_strlit("$");
        }
        assert(original@ =~= seq!['$'] + name@);
        if filters.matches(name.as_str()) == Some(false) {
            let r = colorize_text(colored, original, TextColor::Magenta);
            let ghost b = choose|b: bool| r@ == #[trigger] colorize(colored, original@, TextColor::Magenta, b);
            assert(same_result(Ok(r), out_of(b, false)));
            return (Ok(r), e);
        }
        let found = env.get(name.as_str());
        let is_set = found.is_some();
        let value = match found {
            Some(v) => v,
            None => String::new(),
        };
        assert(value@ == value_or_empty(env@, name@));
        let handled = handle_flags_on_result(value, is_set, name.as_str(), original.as_str(), flags);
        let ghost b1 = choose|b: bool| same_result(handled, #[trigger] handle_spec(value@, is_set, name@, original@, flags@, b));
        return match handled {
            Ok(v) => {
                let r = colorize_text(colored, v, TextColor::Green);
                let ghost b2 = choose|b: bool| r@ == #[trigger] colorize(colored, v@, TextColor::Green, b);
                assert(same_result(Ok(r), out_of(b1, b2)));
                (Ok(r), e)
            },
            Err(m) => {
                assert(same_result(Err(m), out_of(b1, false)));
                (Err(m), e)
            },
        };
    }
    let r = String::from_str("$");
    proof {
        reveal_strlit("$");
        assert("$"@ =~= seq!['$']);
    }
    assert(same_result(Ok(r), out_of(false, false)));
    (Ok(r), i + 1)
}

proof fn lemma_line_from_step(
    s: Seq<char>,
    i: int,
    fl: Map<Flag, (Seq<char>, Option<bool>)>,
    fi: FiltersView,
    env: Map<Seq<char>, Seq<char>>,
    x: (bool, bool),
    c: Seq<(bool, bool)>,
)
    requires
        0 <= i < s.len(),
    ensures
        line_from(s, i, fl, fi, env, seq![x] + c) == ({
            let st = line_step(s, i, fl, fi, env, x.0, x.1);
            match st.out {
                Ok(t) => prepend(t, line_from(s, st.next, fl, fi, env, c)),
                Err(e) => Err(e),
            }
        }),
{
    lemma_line_step(s, i, fl, fi, env, x.0, x.1);
    assert((seq![x] + c)[0] == x);
    assert((seq![x] + c).drop_first() =~= c);
}

proof fn lemma_prepend_prepend(a: Seq<char>, b: Seq<char>, r: Result<Seq<char>, Seq<char>>)
    ensures
        prepend(a, prepend(b, r)) == prepend(a + b, r),
{
    if let Ok(y) = r {
        assert(a + (b + y) =~= (a + b) + y);
    }
}

/// Replaces the variables of `line` (`$VAR`, `${VAR}` and the braced forms with an
/// operation) with their values from `env`; see [`line_spec`].
///
/// `$$` escapes a `$` unless the `NoEscape` flag is set. Text that is not a variable is kept
/// as it is; the first variable that is an error makes the line an error.
pub fn replace_vars_in_line(line: &str, flags: &Flags, filters: &Filters, env: &Environment) -> (r: Result<String, String>)
    ensures
        exists|ch: Seq<(bool, bool)>| same_result(r, #[trigger] line_spec(line@, flags@, filters@, env@, ch)),
{
    let s = chars_of(line);
    let mut out = String::new();
    let ghost mut used: Seq<(bool, bool)> = Seq::empty();
    let mut i: usize = 0;
    proof {
        assert forall|c: Seq<(bool, bool)>| #[trigger] line_from(s@, 0, flags@, filters@, env@, used + c)
            == prepend(out@, line_from(s@, i as int, flags@, filters@, env@, c)) by {
            assert(used + c =~= c);
            let r = line_from(s@, 0, flags@, filters@, env@, c);
            if let Ok(y) = r {
                assert(out@ + y =~= y);
            }
        }
    }
    while i < s.len()
        invariant
            0 <= i <= s@.len(),
            s@ == line@,
            forall|c: Seq<(bool, bool)>| #[trigger] line_from(s@, 0, flags@, filters@, env@, used + c)
                == prepend(out@, line_from(s@, i as int, flags@, filters@, env@, c)),
        decreases s@.len() - i,
    {
        let (res, next) = replace_step(&s, i, flags, filters, env);
        let ghost (b1, b2) = choose|b1: bool, b2: bool| same_result(res, #[trigger] line_step(s@, i as int, flags@, filters@, env@, b1, b2).out);
        let ghost x = (b1, b2);
        proof {
            lemma_line_step(s@, i as int, flags@, filters@, env@, b1, b2);
            lemma_line_from_step(s@, i as int, flags@, filters@, env@, x, Seq::empty());
            assert(used + (seq![x] + Seq::<(bool, bool)>::empty()) =~= used.push(x));
        }
        match res {
            Err(e) => {
                assert(same_result(Err(e), line_from(s@, 0, flags@, filters@, env@, used + (seq![x] + Seq::<(bool, bool)>::empty()))));
                assert(same_result(Err(e), line_spec(line@, flags@, filters@, env@, used.push(x))));
                return Err(e);
            },
            Ok(t) => {
                let ghost before = out@;
                out.append(t.as_str());
                proof {
                    assert forall|c: Seq<(bool, bool)>| #[trigger] line_from(s@, 0, flags@, filters@, env@, used.push(x) + c)
                        == prepend(out@, line_from(s@, next as int, flags@, filters@, env@, c)) by {
                        assert(used.push(x) + c =~= used + (seq![x] + c));
                        lemma_line_from_step(s@, i as int, flags@, filters@, env@, x, c);
                        lemma_prepend_prepend(before, t@, line_from(s@, next as int, flags@, filters@, env@, c));
                    }
                    used = used.push(x);
                }
                i = next;
            },
        }
    }
    proof {
        assert(used + Seq::<(bool, bool)>::empty() =~= used);
        assert(out@ + Seq::<char>::empty() =~= out@);
        assert(same_result(Ok(out), line_spec(line@, flags@, filters@, env@, used)));
    }
    Ok(out)
}

/// The position just after the first line feed at or after `k`, or the end of `b` when
/// there is none.
pub open spec fn line_end(b: Seq<u8>, k: int) -> int
    decreases b.len() - k,
{
    if k < 0 || k >= b.len() {
        b.len() as int
    } else if b[k] == 10 {
        k + 1
    } else {
        line_end(b, k + 1)
    }
}

/// The lines of `b` from position `k` on, each with its line feed (the last one may have
/// none).
pub open spec fn lines_from(b: Seq<u8>, k: int) -> Seq<Seq<u8>>
    decreases b.len() - k,
{
    if k < 0 || k >= b.len() {
        Seq::empty()
    } else {
        let e = line_end(b, k);
        if e <= k || e > b.len() {
            Seq::empty()
        } else {
            seq![b.subrange(k, e)] + lines_from(b, e)
        }
    }
}

/// The error for a line that is not UTF-8.
pub open spec fn invalid_utf8_message() -> Seq<char> {
    "stream did not contain valid UTF-8"@
}

/// The text of a line, or the error when its bytes are not UTF-8.
pub open spec fn decoded_line(l: Seq<u8>) -> Result<Seq<char>, Seq<char>> {
    if vstd::utf8::valid_utf8(l) {
        Ok(vstd::utf8::decode_utf8(l))
    } else {
        Err(invalid_utf8_message())
    }
}

/// The bytes as text when they are UTF-8 (`std::str::from_utf8`).
///
/// The contract states what the standard library documents: the bytes are accepted exactly
/// when they are valid UTF-8, and then the text is what they encode.
#[verifier::external_body]
fn utf8_text(bytes: &[u8]) -> (r: Option<String>)
    ensures
        match r {
            Some(s) => vstd::utf8::valid_utf8(bytes@) && s@ == vstd::utf8::decode_utf8(bytes@),
            None => !vstd::utf8::valid_utf8(bytes@),
        },
{
    match std::str::from_utf8(bytes) {
        Ok(s) => Some(s.to_string()),
        Err(_) => None,
    }
}

/// The text of one line of input, or the error that reading it gives when its bytes are
/// not UTF-8; see [`decoded_line`].
pub fn decode_line(bytes: &[u8]) -> (r: Result<String, String>)
    ensures
        same_result(r, decoded_line(bytes@)),
{
    match utf8_text(bytes) {
        Some(s) => Ok(s),
        None => Err(String::from_str("stream did not contain valid UTF-8")),
    }
}

/// What to do after one line of input has been read and substituted.
#[derive(Debug)]
pub enum LineAction {
    /// Write this text to the output now.
    Write(String),
    /// The text was added to the buffer; write nothing yet.
    Keep,
    /// Stop with this error.
    Fail(String),
}

/// The error for a line whose substitution failed with `e`.
pub open spec fn replace_failure_message(e: Seq<char>) -> Seq<char> {
    "failed to replace variables: "@ + e
}

/// Reads the bytes `bytes` of one line of input and substitutes its variables.
///
/// A line that is not UTF-8 stops the input with the reading error. A line whose
/// substitution fails stops it with "failed to replace variables: " and the error. Otherwise
/// the substituted line is written at once when `unbuffered` is set, and added to `buffer`
/// when it is not. The buffer changes only in that last case.
pub fn substitute_input_line(
    buffer: &mut String,
    unbuffered: bool,
    bytes: &[u8],
    flags: &Flags,
    filters: &Filters,
    env: &Environment,
) -> (a: LineAction)
    ensures
        match decoded_line(bytes@) {
            Err(e) => (a matches LineAction::Fail(m) && m@ == e) && final(buffer)@ == old(buffer)@,
            Ok(line) => exists|ch: Seq<(bool, bool)>| #[trigger] line_input_outcome(
                line_spec(line, flags@, filters@, env@, ch),
                unbuffered,
                old(buffer)@,
                final(buffer)@,
                a,
            ),
        },
{
    let line = match decode_line(bytes) {
        Ok(line) => line,
        Err(e) => return LineAction::Fail(e),
    };
    let r = replace_vars_in_line(line.as_str(), flags, filters, env);
    let ghost ch = choose|ch: Seq<(bool, bool)>| same_result(r, #[trigger] line_spec(line@, flags@, filters@, env@, ch));
    let ghost before = buffer@;
    let a = match r {
        Ok(out) => {
            if unbuffered {
                LineAction::Write(out)
            } else {
                buffer.append(out.as_str());
                LineAction::Keep
            }
        },
        Err(e) => {
            let mut m = String::from_str("failed to replace variables: ");
            m.append(e.as_str());
            LineAction::Fail(m)
        },
    };
    assert(line_input_outcome(line_spec(line@, flags@, filters@, env@, ch), unbuffered, before, buffer@, a));
    a
}

/// What [`substitute_input_line`] does with the substituted line `r`: the action `a` and the
/// buffer before (`before`) and after (`after`).
pub open spec fn line_input_outcome(
    r: Result<Seq<char>, Seq<char>>,
    unbuffered: bool,
    before: Seq<char>,
    after: Seq<char>,
    a: LineAction,
) -> bool {
    match r {
        Ok(t) => if unbuffered {
            (a matches LineAction::Write(w) && w@ == t) && after == before
        } else {
            a is Keep && after == before + t
        },
        Err(e) => (a matches LineAction::Fail(m) && m@ == replace_failure_message(e)) && after == before,
    }
}

/// What is left to write once the input has ended: the buffer, unless the lines were
/// written as they came.
pub fn final_write(buffer: &String, unbuffered: bool) -> (r: Option<String>)
    ensures
        unbuffered ==> r is None,
        !unbuffered ==> (r matches Some(t) && t@ == buffer@),
{
    if unbuffered {
        None
    } else {
        Some(buffer.clone())
    }
}

proof fn lemma_line_end(b: Seq<u8>, k: int)
    requires
        0 <= k < b.len(),
    ensures
        k < line_end(b, k) <= b.len(),
    decreases b.len() - k,
{
    if b[k] != 10 {
        if k + 1 < b.len() {
            lemma_line_end(b, k + 1);
        } else {
            assert(line_end(b, k + 1) == b.len());
        }
    }
}

proof fn lemma_line_end_at(b: Seq<u8>, k: int, e: int)
    requires
        0 <= k < e <= b.len(),
        forall|m: int| k <= m < e - 1 ==> b[m] != 10,
        b[e - 1] == 10 || e == b.len(),
    ensures
        line_end(b, k) == e,
    decreases e - k,
{
    if k < e - 1 {
        lemma_line_end_at(b, k + 1, e);
    } else if b[k] != 10 {
        assert(line_end(b, k + 1) == b.len());
    }
}

/// Splits `input` into lines, each with its line feed, and reads each as UTF-8; see
/// [`lines_from`] and [`decoded_line`].
pub fn read_lines(input: &[u8]) -> (r: Vec<Result<String, String>>)
    ensures
        r@.len() == lines_from(input@, 0).len(),
        forall|k: int| 0 <= k < r@.len() ==> same_result(#[trigger] r@[k], decoded_line(lines_from(input@, 0)[k])),
{
    let mut r: Vec<Result<String, String>> = Vec::new();
    let ghost mut done: Seq<Seq<u8>> = Seq::empty();
    let mut k: usize = 0;
    let n = input.len();
    while k < n
        invariant
            0 <= k <= n,
            n == input@.len(),
            lines_from(input@, 0) == done + lines_from(input@, k as int),
            r@.len() == done.len(),
            forall|m: int| 0 <= m < r@.len() ==> same_result(#[trigger] r@[m], decoded_line(done[m])),
        decreases n - k,
    {
        let mut line: Vec<u8> = Vec::new();
        let mut e: usize = k;
        while e < n && (e == k || input[e - 1] != 10)
            invariant
                k <= e <= n,
                n == input@.len(),
                line@ == input@.subrange(k as int, e as int),
                forall|m: int| k <= m < e - 1 ==> input@[m] != 10,
            decreases n - e,
        {
            line.push(input[e]);
            assert(input@.subrange(k as int, e + 1) =~= input@.subrange(k as int, e as int).push(input@[e as int]));
            e = e + 1;
        }
        proof {
            lemma_line_end_at(input@, k as int, e as int);
            assert(lines_from(input@, k as int) == seq![input@.subrange(k as int, e as int)] + lines_from(input@, e as int));
            assert(done + lines_from(input@, k as int) =~= done.push(line@) + lines_from(input@, e as int));
        }
        r.push(decode_line(line.as_slice()));
        proof {
            done = done.push(line@);
        }
        k = e;
    }
    assert(done + lines_from(input@, k as int) =~= done);
    r
}

proof fn lemma_plain_text(
    s: Seq<char>,
    i: int,
    fl: Map<Flag, (Seq<char>, Option<bool>)>,
    fi: FiltersView,
    env: Map<Seq<char>, Seq<char>>,
    ch: Seq<(bool, bool)>,
)
    requires
        0 <= i <= s.len(),
        forall|j: int| i <= j < s.len() ==> s[j] != '$',
    ensures
        line_from(s, i, fl, fi, env, ch) == Ok::<Seq<char>, Seq<char>>(s.skip(i)),
    decreases s.len() - i,
{
    if i < s.len() {
        lemma_plain_text(s, i + 1, fl, fi, env, other_choices(ch));
        assert(seq![s[i]] + s.skip(i + 1) =~= s.skip(i));
    } else {
        assert(s.skip(i) =~= Seq::<char>::empty());
    }
}

/// A line without `$` is left as it is.
pub proof fn law_plain_line_unchanged(
    s: Seq<char>,
    fl: Map<Flag, (Seq<char>, Option<bool>)>,
    fi: FiltersView,
    env: Map<Seq<char>, Seq<char>>,
    ch: Seq<(bool, bool)>,
)
    requires
        !s.contains('$'),
    ensures
        line_spec(s, fl, fi, env, ch) == Ok::<Seq<char>, Seq<char>>(s),
{
    assert forall|j: int| 0 <= j < s.len() implies s[j] != '$' by {
        if s[j] == '$' {
            assert(s.contains(s[j]));
        }
    }
    lemma_plain_text(s, 0, fl, fi, env, ch);
    assert(s.skip(0) =~= s);
}

/// A valid variable name: a letter or `_`, then letters, digits or `_`.
pub open spec fn is_var_name(name: Seq<char>) -> bool {
    &&& name.len() > 0
    &&& (is_alpha(name[0]) || name[0] == '_')
    &&& forall|j: int| 0 <= j < name.len() ==> is_name_char(#[trigger] name[j])
}

/// `$NAME` is replaced with the value of the variable `NAME` when it is set and not empty
/// (without colors, and when the filters do not exclude it).
pub proof fn law_variable_replaced_by_value(
    name: Seq<char>,
    fl: Map<Flag, (Seq<char>, Option<bool>)>,
    fi: FiltersView,
    env: Map<Seq<char>, Seq<char>>,
    ch: Seq<(bool, bool)>,
)
    requires
        is_var_name(name),
        env.contains_key(name),
        env[name].len() > 0,
        filter_match(fi, name) != Some(false),
        !flag_on(fl, Flag::Color),
    ensures
        line_spec(seq!['$'] + name, fl, fi, env, ch) == Ok::<Seq<char>, Seq<char>>(env[name]),
{
    lemma_single_variable_step(name, fl, fi, env, ch);
}

/// `$$` escapes a `$` when escaping is on: `$$NAME`, `$${NAME}` and `$${NAME:-DEFAULT}`
/// become `$NAME`, `${NAME}` and `${NAME:-DEFAULT}` (for any text `t` after `$$` that has
/// no `$` and starts with a letter, `_`, `{` or a space).
pub proof fn law_escaped_variable_kept(
    t: Seq<char>,
    fl: Map<Flag, (Seq<char>, Option<bool>)>,
    fi: FiltersView,
    env: Map<Seq<char>, Seq<char>>,
    ch: Seq<(bool, bool)>,
)
    requires
        t.len() > 0,
        escape_follower(t[0]),
        !t.contains('$'),
        !flag_on(fl, Flag::NoEscape),
    ensures
        line_spec(seq!['$', '$'] + t, fl, fi, env, ch) == Ok::<Seq<char>, Seq<char>>(seq!['$'] + t),
{
    let s = seq!['$', '$'] + t;
    assert forall|j: int| 2 <= j < s.len() implies s[j] != '$' by {
        assert(s[j] == t[j - 2]);
        if t[j - 2] == '$' {
            assert(t.contains(t[j - 2]));
        }
    }
    assert(s[2] == t[0]);
    let x = first_choice(ch);
    lemma_line_step(s, 0, fl, fi, env, x.0, x.1);
    lemma_plain_text(s, 2, fl, fi, env, other_choices(ch));
    assert(s.skip(2) =~= t);
}

/// The lines of an input, put back together, are the input: no byte is lost or added.
pub proof fn law_lines_cover_input(b: Seq<u8>)
    ensures
        lines_from(b, 0).fold_left(Seq::<u8>::empty(), |acc: Seq<u8>, l: Seq<u8>| acc + l) == b,
{
    lemma_lines_cover(b, 0);
    assert(b.skip(0) =~= b);
}

proof fn lemma_lines_cover(b: Seq<u8>, k: int)
    requires
        0 <= k <= b.len(),
    ensures
        lines_from(b, k).fold_left(Seq::<u8>::empty(), |acc: Seq<u8>, l: Seq<u8>| acc + l) == b.skip(k),
    decreases b.len() - k,
{
    let f = |acc: Seq<u8>, l: Seq<u8>| acc + l;
    if k < b.len() {
        lemma_line_end(b, k);
        let e = line_end(b, k);
        lemma_lines_cover(b, e);
        let rest = lines_from(b, e);
        let all = seq![b.subrange(k, e)] + rest;
        assert(lines_from(b, k) == all);
        lemma_fold_concat(rest, b.subrange(k, e));
        assert(all.fold_left(Seq::<u8>::empty(), f) == rest.fold_left(b.subrange(k, e), f)) by {
            all.lemma_fold_left_split(Seq::<u8>::empty(), f, 1);
            let one = all.subrange(0, 1);
            assert(one =~= seq![b.subrange(k, e)]);
            assert(all.subrange(1, all.len() as int) =~= rest);
            assert(one.drop_last() =~= Seq::<Seq<u8>>::empty());
            assert(one.drop_last().fold_left(Seq::<u8>::empty(), f) == Seq::<u8>::empty());
            assert(one.fold_left(Seq::<u8>::empty(), f) == f(one.drop_last().fold_left(Seq::<u8>::empty(), f), one.last()));
            assert(Seq::<u8>::empty() + b.subrange(k, e) =~= b.subrange(k, e));
            assert(one.fold_left(Seq::<u8>::empty(), f) == b.subrange(k, e));
        }
        assert(b.subrange(k, e) + b.skip(e) =~= b.skip(k));
    } else {
        assert(b.skip(k) =~= Seq::<u8>::empty());
    }
}

proof fn lemma_fold_concat(ls: Seq<Seq<u8>>, start: Seq<u8>)
    ensures
        ls.fold_left(start, |acc: Seq<u8>, l: Seq<u8>| acc + l) == start + ls.fold_left(
            Seq::<u8>::empty(),
            |acc: Seq<u8>, l: Seq<u8>| acc + l,
        ),
    decreases ls.len(),
{
    let f = |acc: Seq<u8>, l: Seq<u8>| acc + l;
    if ls.len() == 0 {
        assert(start + Seq::<u8>::empty() =~= start);
    } else {
        lemma_fold_concat(ls.drop_last(), start);
        lemma_fold_concat(ls.drop_last(), Seq::<u8>::empty());
        assert(Seq::<u8>::empty() + ls.drop_last().fold_left(Seq::<u8>::empty(), f) =~= ls.drop_last().fold_left(Seq::<u8>::empty(), f));
        assert((start + ls.drop_last().fold_left(Seq::<u8>::empty(), f)) + ls.last() =~= start + (
        ls.drop_last().fold_left(Seq::<u8>::empty(), f) + ls.last()));
    }
}

/// `${NAME:-DEFAULT}` is replaced with `DEFAULT` when the variable `NAME` is not set or is
/// empty (without colors, and when the filters do not exclude it).
pub proof fn law_default_for_unset_variable(
    name: Seq<char>,
    default: Seq<char>,
    fl: Map<Flag, (Seq<char>, Option<bool>)>,
    fi: FiltersView,
    env: Map<Seq<char>, Seq<char>>,
    ch: Seq<(bool, bool)>,
)
    requires
        is_var_name(name),
        default.len() > 0,
        !default.contains('}'),
        value_or_empty(env, name).len() == 0,
        filter_match(fi, name) != Some(false),
        !flag_on(fl, Flag::Color),
    ensures
        line_spec(seq!['$', '{'] + name + seq![':', '-'] + default + seq!['}'], fl, fi, env, ch)
            == Ok::<Seq<char>, Seq<char>>(default),
{
    let s = seq!['$', '{'] + name + seq![':', '-'] + default + seq!['}'];
    let n = name.len() as int;
    let last = s.len() - 1;
    assert forall|m: int| 2 <= m < last implies s[m] != '}' by {
        if m < 2 + n {
            assert(s[m] == name[m - 2]);
            assert(is_name_char(name[m - 2]));
        } else if m >= 4 + n {
            assert(s[m] == default[m - 4 - n]);
            if s[m] == '}' {
                assert(default.contains(default[m - 4 - n]));
            }
        }
    }
    lemma_close_brace_at(s, 2, last);
    let inner = s.subrange(2, last);
    assert(inner =~= name + seq![':', '-'] + default);
    assert forall|j: int| 0 <= j < n implies is_name_char(#[trigger] inner[j]) by {
        assert(inner[j] == name[j]);
    }
    lemma_ident_end_at(inner, 0, n);
    assert(inner.take(n) =~= name);
    let data = inner.skip(n + 1);
    assert(data =~= seq!['-'] + default);
    assert(data.drop_first() =~= default);
    assert(parse_inner(inner) == Ok::<(Seq<char>, Option<(char, Seq<char>)>), char>((name, Some((':', data)))));
    assert(inner_spec(inner, fl, fi, env, first_choice(ch).0, first_choice(ch).1) == Ok::<Seq<char>, Seq<char>>(default));
    let x = first_choice(ch);
    lemma_line_step(s, 0, fl, fi, env, x.0, x.1);
    assert(line_from(s, s.len() as int, fl, fi, env, other_choices(ch)) == Ok::<Seq<char>, Seq<char>>(Seq::empty()));
    assert(default + Seq::<char>::empty() =~= default);
}

proof fn lemma_close_brace_shift(p: Seq<char>, r: Seq<char>, k: int)
    requires
        0 <= k <= r.len(),
    ensures
        close_brace(p + r, p.len() + k) == p.len() + close_brace(r, k),
    decreases r.len() - k,
{
    let s = p + r;
    if k < r.len() {
        assert(s[p.len() + k] == r[k]);
        if r[k] != '}' {
            lemma_close_brace_shift(p, r, k + 1);
        }
    }
}

proof fn lemma_ident_end_shift(p: Seq<char>, r: Seq<char>, k: int)
    requires
        0 <= k <= r.len(),
    ensures
        ident_end(p + r, p.len() + k) == p.len() + ident_end(r, k),
    decreases r.len() - k,
{
    let s = p + r;
    if k < r.len() {
        assert(s[p.len() + k] == r[k]);
        if is_name_char(r[k]) {
            lemma_ident_end_shift(p, r, k + 1);
        }
    }
}

/// The step at a position of `r` does not depend on the text before `r`.
proof fn lemma_step_shift(
    p: Seq<char>,
    r: Seq<char>,
    k: int,
    fl: Map<Flag, (Seq<char>, Option<bool>)>,
    fi: FiltersView,
    env: Map<Seq<char>, Seq<char>>,
    b1: bool,
    b2: bool,
)
    requires
        0 <= k < r.len(),
    ensures
        line_step(p + r, p.len() + k, fl, fi, env, b1, b2).out == line_step(r, k, fl, fi, env, b1, b2).out,
        line_step(p + r, p.len() + k, fl, fi, env, b1, b2).next == p.len() + line_step(r, k, fl, fi, env, b1, b2).next,
{
    let s = p + r;
    let n = p.len();
    assert(s[n + k] == r[k]);
    if k + 1 < r.len() {
        assert(s[n + k + 1] == r[k + 1]);
    }
    if k + 2 < r.len() {
        assert(s[n + k + 2] == r[k + 2]);
    }
    if k + 2 <= r.len() {
        lemma_close_brace_shift(p, r, k + 2);
        lemma_close_brace(r, k + 2);
        let j = close_brace(r, k + 2);
        assert(s.subrange(n + k + 2, n + j) =~= r.subrange(k + 2, j));
        assert(s.subrange(n + k + 2, s.len() as int) =~= r.subrange(k + 2, r.len() as int));
    }
    if k + 1 <= r.len() {
        lemma_ident_end_shift(p, r, k + 1);
        lemma_ident_end(r, k + 1);
        let e = ident_end(r, k + 1);
        assert(s.subrange(n + k + 1, n + e) =~= r.subrange(k + 1, e));
    }
}

proof fn lemma_line_shift(
    p: Seq<char>,
    r: Seq<char>,
    k: int,
    fl: Map<Flag, (Seq<char>, Option<bool>)>,
    fi: FiltersView,
    env: Map<Seq<char>, Seq<char>>,
    ch: Seq<(bool, bool)>,
)
    requires
        0 <= k <= r.len(),
    ensures
        line_from(p + r, p.len() + k, fl, fi, env, ch) == line_from(r, k, fl, fi, env, ch),
    decreases r.len() - k,
{
    if k < r.len() {
        let x = first_choice(ch);
        lemma_step_shift(p, r, k, fl, fi, env, x.0, x.1);
        lemma_line_step(r, k, fl, fi, env, x.0, x.1);
        let next = line_step(r, k, fl, fi, env, x.0, x.1).next;
        lemma_line_shift(p, r, next, fl, fi, env, other_choices(ch));
    }
}

/// `ch` without its first `n` choices.
pub open spec fn drop_choices(ch: Seq<(bool, bool)>, n: nat) -> Seq<(bool, bool)>
    decreases n,
{
    if n == 0 {
        ch
    } else {
        drop_choices(other_choices(ch), (n - 1) as nat)
    }
}

proof fn lemma_plain_prefix(
    p: Seq<char>,
    r: Seq<char>,
    i: int,
    fl: Map<Flag, (Seq<char>, Option<bool>)>,
    fi: FiltersView,
    env: Map<Seq<char>, Seq<char>>,
    ch: Seq<(bool, bool)>,
)
    requires
        0 <= i <= p.len(),
        !p.contains('$'),
    ensures
        line_from(p + r, i, fl, fi, env, ch) == prepend(
            p.skip(i),
            line_from(p + r, p.len() as int, fl, fi, env, drop_choices(ch, (p.len() - i) as nat)),
        ),
    decreases p.len() - i,
{
    let s = p + r;
    if i < p.len() {
        assert(s[i] == p[i]);
        if p[i] == '$' {
            assert(p.contains(p[i]));
        }
        lemma_plain_prefix(p, r, i + 1, fl, fi, env, other_choices(ch));
        let rest = line_from(s, p.len() as int, fl, fi, env, drop_choices(ch, (p.len() - i) as nat));
        assert(drop_choices(ch, (p.len() - i) as nat) == drop_choices(other_choices(ch), (p.len() - i - 1) as nat));
        assert(seq![p[i]] + p.skip(i + 1) =~= p.skip(i));
        if let Ok(y) = rest {
            assert(seq![p[i]] + (p.skip(i + 1) + y) =~= p.skip(i) + y);
        }
    } else {
        assert(p.skip(i) =~= Seq::<char>::empty());
        let rest = line_from(s, p.len() as int, fl, fi, env, ch);
        if let Ok(y) = rest {
            assert(Seq::<char>::empty() + y =~= y);
        }
    }
}

/// Text without `$` in front of a line is kept as it is, and does not change what the
/// rest of the line becomes (its characters take no coloring, so the rest takes the
/// colorings after theirs).
pub proof fn law_plain_text_before(
    p: Seq<char>,
    r: Seq<char>,
    fl: Map<Flag, (Seq<char>, Option<bool>)>,
    fi: FiltersView,
    env: Map<Seq<char>, Seq<char>>,
    ch: Seq<(bool, bool)>,
)
    requires
        !p.contains('$'),
    ensures
        line_spec(p + r, fl, fi, env, ch) == prepend(p, line_spec(r, fl, fi, env, drop_choices(ch, p.len()))),
{
    lemma_plain_prefix(p, r, 0, fl, fi, env, ch);
    assert(p.skip(0) =~= p);
    lemma_line_shift(p, r, 0, fl, fi, env, drop_choices(ch, p.len()));
}

proof fn lemma_single_variable_step(
    name: Seq<char>,
    fl: Map<Flag, (Seq<char>, Option<bool>)>,
    fi: FiltersView,
    env: Map<Seq<char>, Seq<char>>,
    ch: Seq<(bool, bool)>,
)
    requires
        is_var_name(name),
    ensures
        ({
            let s = seq!['$'] + name;
            let x = first_choice(ch);
            let st = line_step(s, 0, fl, fi, env, x.0, x.1);
            &&& st.next == s.len()
            &&& line_spec(s, fl, fi, env, ch) == st.out
            &&& filter_match(fi, name) == Some(false) ==> st.out == Ok::<Seq<char>, Seq<char>>(
                colorize(flag_on(fl, Flag::Color), s, TextColor::Magenta, x.0),
            )
            &&& filter_match(fi, name) != Some(false) ==> st.out == match handle_spec(
                value_or_empty(env, name),
                env.contains_key(name),
                name,
                s,
                fl,
                x.0,
            ) {
                Ok(v) => Ok(colorize(flag_on(fl, Flag::Color), v, TextColor::Green, x.1)),
                Err(m) => Err(m),
            }
        }),
{
    let s = seq!['$'] + name;
    assert forall|j: int| 1 <= j < s.len() implies is_name_char(#[trigger] s[j]) by {
        assert(s[j] == name[j - 1]);
    }
    lemma_ident_end_at(s, 1, s.len() as int);
    assert(s.subrange(1, s.len() as int) =~= name);
    let x = first_choice(ch);
    lemma_line_step(s, 0, fl, fi, env, x.0, x.1);
    assert(line_from(s, s.len() as int, fl, fi, env, other_choices(ch)) == Ok::<Seq<char>, Seq<char>>(Seq::empty()));
    let st = line_step(s, 0, fl, fi, env, x.0, x.1);
    if let Ok(t) = st.out {
        assert(t + Seq::<char>::empty() =~= t);
    }
}

/// `$NAME` for a variable that is not set: an error under `--fail` and `--fail-on-unset`
/// ("not set"), else under `--fail-on-empty` ("empty"); kept as written under any
/// no-replace flag; otherwise the empty text. (Without colors, and when the filters do not
/// exclude it.)
pub proof fn law_unset_variable(
    name: Seq<char>,
    fl: Map<Flag, (Seq<char>, Option<bool>)>,
    fi: FiltersView,
    env: Map<Seq<char>, Seq<char>>,
    ch: Seq<(bool, bool)>,
)
    requires
        is_var_name(name),
        !env.contains_key(name),
        !flag_on(fl, Flag::Color),
        filter_match(fi, name) != Some(false),
    ensures
        line_spec(seq!['$'] + name, fl, fi, env, ch) == (if flag_on(fl, Flag::Fail) || flag_on(fl, Flag::FailOnUnset) {
            Err::<Seq<char>, Seq<char>>(unset_message(name))
        } else if flag_on(fl, Flag::FailOnEmpty) {
            Err(empty_message(name))
        } else if flag_on(fl, Flag::NoReplace) || flag_on(fl, Flag::NoReplaceUnset) || flag_on(fl, Flag::NoReplaceEmpty) {
            Ok(seq!['$'] + name)
        } else {
            Ok(Seq::empty())
        }),
{
    lemma_single_variable_step(name, fl, fi, env, ch);
}

/// `$NAME` for a variable that is set but empty: an error under `--fail` and
/// `--fail-on-empty`; kept as written under `--no-replace` and `--no-replace-empty`;
/// otherwise the empty text. The flags for variables that are not set (`--fail-on-unset`,
/// `--no-replace-unset`) do not act on it. (Without colors, and when the filters do not
/// exclude it.)
pub proof fn law_empty_variable(
    name: Seq<char>,
    fl: Map<Flag, (Seq<char>, Option<bool>)>,
    fi: FiltersView,
    env: Map<Seq<char>, Seq<char>>,
    ch: Seq<(bool, bool)>,
)
    requires
        is_var_name(name),
        env.contains_key(name),
        env[name].len() == 0,
        !flag_on(fl, Flag::Color),
        filter_match(fi, name) != Some(false),
    ensures
        line_spec(seq!['$'] + name, fl, fi, env, ch) == (if flag_on(fl, Flag::Fail) || flag_on(fl, Flag::FailOnEmpty) {
            Err::<Seq<char>, Seq<char>>(empty_message(name))
        } else if flag_on(fl, Flag::NoReplace) || flag_on(fl, Flag::NoReplaceEmpty) {
            Ok(seq!['$'] + name)
        } else {
            Ok(Seq::empty())
        }),
{
    lemma_single_variable_step(name, fl, fi, env, ch);
    assert(env[name] =~= Seq::<char>::empty());
}

/// A variable that the filters exclude stays as written (without colors).
pub proof fn law_excluded_variable_kept(
    name: Seq<char>,
    fl: Map<Flag, (Seq<char>, Option<bool>)>,
    fi: FiltersView,
    env: Map<Seq<char>, Seq<char>>,
    ch: Seq<(bool, bool)>,
)
    requires
        is_var_name(name),
        filter_match(fi, name) == Some(false),
        !flag_on(fl, Flag::Color),
    ensures
        line_spec(seq!['$'] + name, fl, fi, env, ch) == Ok::<Seq<char>, Seq<char>>(seq!['$'] + name),
{
    lemma_single_variable_step(name, fl, fi, env, ch);
}

/// The position just after the first `\n` of `s` at or after `k`, or the length of `s`.
pub open spec fn char_line_end(s: Seq<char>, k: int) -> int
    decreases s.len() - k,
{
    if k < 0 || k >= s.len() {
        s.len() as int
    } else if s[k] == '\n' {
        k + 1
    } else {
        char_line_end(s, k + 1)
    }
}

/// The lines of a text, each with its `\n` (the last one may have none).
pub open spec fn text_lines(s: Seq<char>) -> Seq<Seq<char>>
    decreases s.len(),
{
    if s.len() == 0 {
        Seq::empty()
    } else {
        let e = char_line_end(s, 0);
        if e <= 0 || e > s.len() {
            Seq::empty()
        } else {
            seq![s.take(e)] + text_lines(s.skip(e))
        }
    }
}

proof fn lemma_char_line_end(s: Seq<char>, k: int)
    requires
        0 <= k < s.len(),
    ensures
        k < char_line_end(s, k) <= s.len(),
        forall|m: int| k <= m < char_line_end(s, k) - 1 ==> s[m] != '\n',
        char_line_end(s, k) < s.len() ==> s[char_line_end(s, k) - 1] == '\n',
        s[char_line_end(s, k) - 1] == '\n' || char_line_end(s, k) == s.len(),
    decreases s.len() - k,
{
    if s[k] != '\n' {
        if k + 1 < s.len() {
            lemma_char_line_end(s, k + 1);
        } else {
            assert(char_line_end(s, k + 1) == s.len());
        }
    }
}

proof fn lemma_encode_concat(a: Seq<char>, b: Seq<char>)
    ensures
        vstd::utf8::encode_utf8(a + b) == vstd::utf8::encode_utf8(a) + vstd::utf8::encode_utf8(b),
    decreases a.len(),
{
    if a.len() == 0 {
        assert(a + b =~= b);
        assert(Seq::<u8>::empty() + vstd::utf8::encode_utf8(b) =~= vstd::utf8::encode_utf8(b));
    } else {
        lemma_encode_concat(a.drop_first(), b);
        assert((a + b).drop_first() =~= a.drop_first() + b);
        assert((a + b)[0] == a[0]);
        let x = vstd::utf8::encode_scalar(a[0] as u32);
        assert(x + (vstd::utf8::encode_utf8(a.drop_first()) + vstd::utf8::encode_utf8(b)) =~= (x
            + vstd::utf8::encode_utf8(a.drop_first())) + vstd::utf8::encode_utf8(b));
    }
}

proof fn lemma_high_bytes(y: u8)
    by (bit_vector)
    ensures
        (0x80u8 | y) != 10u8,
        (0xC0u8 | y) != 10u8,
        (0xE0u8 | y) != 10u8,
        (0xF0u8 | y) != 10u8,
{
}

proof fn lemma_low_byte(v: u32)
    by (bit_vector)
    requires
        v <= 0x7F,
    ensures
        ((v & 0x7F) as u8) as u32 == v,
{
}

/// The UTF-8 encoding of a character holds the byte 10 exactly when the character is `\n`,
/// and then it is that byte alone.
proof fn lemma_scalar_newline(c: char)
    ensures
        vstd::utf8::encode_scalar(c as u32).len() >= 1,
        c == '\n' ==> vstd::utf8::encode_scalar(c as u32) == seq![10u8],
        c != '\n' ==> forall|j: int| 0 <= j < vstd::utf8::encode_scalar(c as u32).len()
            ==> #[trigger] vstd::utf8::encode_scalar(c as u32)[j] != 10u8,
{
    let v = c as u32;
    let x = vstd::utf8::encode_scalar(v);
    if vstd::utf8::has_width_1_encoding(v) {
        lemma_low_byte(v);
        assert(x == seq![(v & 0x7F) as u8]);
        if c == '\n' {
            assert(v == 10);
            assert(x =~= seq![10u8]);
        } else {
            assert(v != 10u32);
        }
    } else {
        lemma_high_bytes(((v >> 6) & 0x1F) as u8);
        lemma_high_bytes(((v >> 12) & 0x0F) as u8);
        lemma_high_bytes(((v >> 18) & 0x7) as u8);
        lemma_high_bytes((v & 0x3F) as u8);
        lemma_high_bytes(((v >> 6) & 0x3F) as u8);
        lemma_high_bytes(((v >> 12) & 0x3F) as u8);
        assert(c != '\n');
    }
}

proof fn lemma_encode_no_newline(t: Seq<char>)
    requires
        !t.contains('\n'),
    ensures
        forall|j: int| 0 <= j < vstd::utf8::encode_utf8(t).len() ==> #[trigger] vstd::utf8::encode_utf8(t)[j] != 10u8,
    decreases t.len(),
{
    if t.len() > 0 {
        assert(!t.drop_first().contains('\n')) by {
            if t.drop_first().contains('\n') {
                let i = choose|i: int| 0 <= i < t.drop_first().len() && t.drop_first()[i] == '\n';
                assert(t[i + 1] == '\n');
            }
        }
        if t[0] == '\n' {
            assert(t.contains(t[0]));
        }
        lemma_encode_no_newline(t.drop_first());
        lemma_scalar_newline(t[0]);
        let x = vstd::utf8::encode_scalar(t[0] as u32);
        let rest = vstd::utf8::encode_utf8(t.drop_first());
        assert forall|j: int| 0 <= j < (x + rest).len() implies (x + rest)[j] != 10u8 by {
            if j < x.len() {
            } else {
                assert((x + rest)[j] == rest[j - x.len()]);
            }
        }
    }
}

proof fn lemma_line_end_shift(p: Seq<u8>, q: Seq<u8>, k: int)
    requires
        0 <= k <= q.len(),
    ensures
        line_end(p + q, p.len() + k) == p.len() + line_end(q, k),
    decreases q.len() - k,
{
    if k < q.len() {
        assert((p + q)[p.len() + k] == q[k]);
        if q[k] != 10 {
            lemma_line_end_shift(p, q, k + 1);
        }
    }
}

proof fn lemma_lines_shift(p: Seq<u8>, q: Seq<u8>, k: int)
    requires
        0 <= k <= q.len(),
    ensures
        lines_from(p + q, p.len() + k) == lines_from(q, k),
    decreases q.len() - k,
{
    if k < q.len() {
        lemma_line_end_shift(p, q, k);
        lemma_line_end(q, k);
        let e = line_end(q, k);
        assert((p + q).subrange(p.len() + k, p.len() + e) =~= q.subrange(k, e));
        lemma_lines_shift(p, q, e);
    }
}

proof fn lemma_text_lines_encode(s: Seq<char>)
    ensures
        lines_from(vstd::utf8::encode_utf8(s), 0) == text_lines(s).map_values(|l: Seq<char>| vstd::utf8::encode_utf8(l)),
    decreases s.len(),
{
    let enc = |l: Seq<char>| vstd::utf8::encode_utf8(l);
    if s.len() == 0 {
        assert(text_lines(s).map_values(enc) =~= Seq::<Seq<u8>>::empty());
    } else {
        lemma_char_line_end(s, 0);
        let e = char_line_end(s, 0);
        let l = s.take(e);
        let r = s.skip(e);
        assert(l + r =~= s);
        lemma_encode_concat(l, r);
        let bl = vstd::utf8::encode_utf8(l);
        let br = vstd::utf8::encode_utf8(r);
        let b = bl + br;
        // The bytes of the first line: its characters before the last are no `\n`.
        let t = l.drop_last();
        assert(t + seq![l.last()] =~= l);
        assert(!t.contains('\n')) by {
            if t.contains('\n') {
                let i = choose|i: int| 0 <= i < t.len() && t[i] == '\n';
                assert(s[i] == '\n');
            }
        }
        lemma_encode_no_newline(t);
        lemma_encode_concat(t, seq![l.last()]);
        let bt = vstd::utf8::encode_utf8(t);
        assert(seq![l.last()].drop_first() =~= Seq::<char>::empty());
        assert(vstd::utf8::encode_utf8(Seq::<char>::empty()) == Seq::<u8>::empty());
        assert(vstd::utf8::encode_utf8(seq![l.last()]) == vstd::utf8::encode_scalar(l.last() as u32)
            + vstd::utf8::encode_utf8(Seq::<char>::empty()));
        assert(vstd::utf8::encode_utf8(seq![l.last()]) =~= vstd::utf8::encode_scalar(l.last() as u32));
        lemma_scalar_newline(l.last());
        let bx = vstd::utf8::encode_scalar(l.last() as u32);
        assert(bl == bt + bx);
        if l.last() == '\n' {
            assert forall|m: int| 0 <= m < bl.len() - 1 implies b[m] != 10u8 by {
                assert(b[m] == bt[m]);
            }
            assert(b[bl.len() - 1] == 10u8);
            lemma_line_end_at(b, 0, bl.len() as int);
        } else {
            assert(e == s.len());
            assert(r.len() == 0);
            assert(br =~= Seq::<u8>::empty());
            assert(b =~= bl);
            assert forall|m: int| 0 <= m < bl.len() implies b[m] != 10u8 by {
                if m < bt.len() {
                    assert(b[m] == bt[m]);
                } else {
                    assert(b[m] == bx[m - bt.len()]);
                }
            }
            lemma_line_end_at(b, 0, bl.len() as int);
        }
        lemma_line_end(b, 0);
        assert(b.subrange(0, bl.len() as int) =~= bl);
        lemma_lines_shift(bl, br, 0);
        lemma_text_lines_encode(r);
        assert(text_lines(s) == seq![l] + text_lines(r));
        assert(text_lines(s).map_values(enc) =~= seq![bl] + text_lines(r).map_values(enc));
        assert(lines_from(b, 0) == seq![bl] + lines_from(b, bl.len() as int));
    }
}

proof fn lemma_text_lines_shape(s: Seq<char>)
    ensures
        text_lines(s).flatten() == s,
        forall|k: int| 0 <= k < text_lines(s).len() ==> (#[trigger] text_lines(s)[k]).len() > 0,
        forall|k: int| 0 <= k < text_lines(s).len() - 1 ==> (#[trigger] text_lines(s)[k]).last() == '\n',
        forall|k: int, j: int| 0 <= k < text_lines(s).len() && 0 <= j < text_lines(s)[k].len() - 1
            ==> #[trigger] text_lines(s)[k][j] != '\n',
    decreases s.len(),
{
    if s.len() > 0 {
        lemma_char_line_end(s, 0);
        let e = char_line_end(s, 0);
        let l = s.take(e);
        let r = s.skip(e);
        lemma_text_lines_shape(r);
        let ls = text_lines(s);
        assert(ls == seq![l] + text_lines(r));
        assert(ls.first() == l);
        assert(ls.drop_first() =~= text_lines(r));
        assert(l + r =~= s);
        assert forall|k: int| 0 <= k < ls.len() implies (#[trigger] ls[k]).len() > 0 by {
            if k > 0 {
                assert(ls[k] == text_lines(r)[k - 1]);
            }
        }
        assert forall|k: int| 0 <= k < ls.len() - 1 implies (#[trigger] ls[k]).last() == '\n' by {
            if k > 0 {
                assert(ls[k] == text_lines(r)[k - 1]);
            } else {
                assert(r.len() > 0);
                assert(e < s.len());
            }
        }
        assert forall|k: int, j: int| 0 <= k < ls.len() && 0 <= j < ls[k].len() - 1 implies #[trigger] ls[k][j]
            != '\n' by {
            if k > 0 {
                assert(ls[k] == text_lines(r)[k - 1]);
            }
        }
    } else {
        assert(text_lines(s).flatten() =~= s);
    }
}

/// Reading an input that is valid UTF-8 (the encoding of a text `s`) gives only lines that
/// read as text; these are the lines of `s`: none is empty, each but the last ends with its
/// only `\n`, and together they are `s`.
pub proof fn law_utf8_input_lines(s: Seq<char>)
    ensures
        lines_from(vstd::utf8::encode_utf8(s), 0).len() == text_lines(s).len(),
        forall|k: int| 0 <= k < text_lines(s).len() ==> decoded_line(#[trigger] lines_from(
            vstd::utf8::encode_utf8(s),
            0,
        )[k]) == Ok::<Seq<char>, Seq<char>>(text_lines(s)[k]),
        text_lines(s).flatten() == s,
        forall|k: int| 0 <= k < text_lines(s).len() ==> (#[trigger] text_lines(s)[k]).len() > 0,
        forall|k: int| 0 <= k < text_lines(s).len() - 1 ==> (#[trigger] text_lines(s)[k]).last() == '\n',
        forall|k: int, j: int| 0 <= k < text_lines(s).len() && 0 <= j < text_lines(s)[k].len() - 1
            ==> #[trigger] text_lines(s)[k][j] != '\n',
{
    lemma_text_lines_encode(s);
    lemma_text_lines_shape(s);
    assert forall|k: int| 0 <= k < text_lines(s).len() implies decoded_line(#[trigger] lines_from(
        vstd::utf8::encode_utf8(s),
        0,
    )[k]) == Ok::<Seq<char>, Seq<char>>(text_lines(s)[k]) by {
        let l = text_lines(s)[k];
        vstd::utf8::encode_utf8_valid_utf8(l);
        vstd::utf8::encode_utf8_decode_utf8(l);
    }
}

} // verus!
