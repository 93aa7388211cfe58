//! Substitution of `$VAR`, `${VAR}` and `${VAR:-DEFAULT}` in a line of text.

use crate::environment::Environment;
use crate::filters::{filter_match, Filters, FiltersView};
use crate::flags::{flag_on, Flag, Flags};
use crate::text::{
    ascii_alnum, ascii_alpha, ascii_digit, chars_of, extend_str, is_alnum, is_alpha, is_digit,
    string_of,
};
use vstd::prelude::*;

verus! {

/// The error for a variable that is not set.
pub open spec fn unset_message(name: Seq<char>) -> Seq<char> {
    "environment variable '"@ + name + "' is not set"@
}

/// The error for a variable that is set but empty.
pub open spec fn empty_message(name: Seq<char>) -> Seq<char> {
    "environment variable '"@ + name + "' is empty"@
}

/// What a variable is replaced with: its value; the default value when the variable is unset
/// or empty and a default is given; the original text (`original`) when the variable is unset
/// or empty and the matching no-replace flag is on; an error when it is unset or empty and the
/// matching fail flag is on; otherwise the empty text.
pub open spec fn env_var_value(
    name: Seq<char>,
    original: Seq<char>,
    default: Seq<char>,
    fl: Map<Flag, (Seq<char>, Option<bool>)>,
    env: Map<Seq<char>, Seq<char>>,
) -> Result<Seq<char>, Seq<char>> {
    if env.contains_key(name) {
        let v = env[name];
        if v.len() == 0 && default.len() == 0 && flag_on(fl, Flag::FailOnEmpty) {
            Err(empty_message(name))
        } else if v.len() == 0 && default.len() > 0 {
            Ok(default)
        } else if v.len() == 0 && flag_on(fl, Flag::NoReplaceEmpty) {
            Ok(original)
        } else {
            Ok(v)
        }
    } else if default.len() > 0 {
        Ok(default)
    } else if flag_on(fl, Flag::FailOnUnset) {
        Err(unset_message(name))
    } else if flag_on(fl, Flag::NoReplaceUnset) {
        Ok(original)
    } else {
        Ok(Seq::empty())
    }
}

/// The text for a variable: left as written when the filters exclude it, otherwise
/// [`env_var_value`].
pub open spec fn substitute_var(
    name: Seq<char>,
    original: Seq<char>,
    default: Seq<char>,
    fl: Map<Flag, (Seq<char>, Option<bool>)>,
    fi: FiltersView,
    env: Map<Seq<char>, Seq<char>>,
) -> Result<Seq<char>, Seq<char>> {
    if filter_match(fi, name) == Some(false) {
        Ok(original)
    } else {
        env_var_value(name, original, default, fl, env)
    }
}

/// A character that may continue a variable name.
pub open spec fn is_name_char(c: char) -> bool {
    is_alnum(c) || c == '_'
}

/// The end of the run of name characters that starts at `k`.
pub open spec fn ident_end(s: Seq<char>, k: int) -> int
    decreases s.len() - k,
{
    if 0 <= k < s.len() && is_name_char(s[k]) {
        ident_end(s, k + 1)
    } else {
        k
    }
}

/// How the text after `${` ends.
pub enum BraceEnd {
    /// A `}` closes the variable.
    Closed,
    /// The line ends before a `}`.
    Unterminated,
    /// A `:` not followed by `-`.
    BrokenDefault,
}

/// What the scan of the text after `${` found: the name, the default value (after `:-`),
/// whether `:-` was seen, and the position after the scanned text.
pub struct BraceScan {
    pub end: BraceEnd,
    pub name: Seq<char>,
    pub default: Seq<char>,
    pub has_default: bool,
    pub next: int,
}

/// Scans the text of a braced variable from position `k`, with the name and default read so
/// far.
pub open spec fn brace_scan(
    s: Seq<char>,
    k: int,
    name: Seq<char>,
    default: Seq<char>,
    found: bool,
) -> BraceScan
    decreases s.len() - k,
{
    if k < 0 || k >= s.len() {
        BraceScan { end: BraceEnd::Unterminated, name, default, has_default: found, next: s.len() as int }
    } else if s[k] == ':' && !found {
        if k + 1 < s.len() && s[k + 1] == '-' {
            brace_scan(s, k + 2, name, default, true)
        } else {
            BraceScan { end: BraceEnd::BrokenDefault, name, default, has_default: found, next: k + 1 }
        }
    } else if s[k] == '}' {
        BraceScan { end: BraceEnd::Closed, name, default, has_default: found, next: k + 1 }
    } else if found {
        brace_scan(s, k + 1, name, default.push(s[k]), true)
    } else {
        brace_scan(s, k + 1, name.push(s[k]), default, found)
    }
}

/// The text of a scanned braced variable as written, without the closing brace.
pub open spec fn brace_text(b: BraceScan) -> Seq<char> {
    seq!['$', '{'] + b.name + if b.has_default {
        seq![':', '-'] + b.default
    } else {
        Seq::empty()
    }
}

/// The result of one step of the substitution: the text produced (or the error) and the
/// position where the next step starts.
pub struct Step {
    pub out: Result<Seq<char>, Seq<char>>,
    pub next: int,
}

/// The step of the substitution that starts at position `i` of `s`.
pub open spec fn step_at(
    s: Seq<char>,
    i: int,
    fl: Map<Flag, (Seq<char>, Option<bool>)>,
    fi: FiltersView,
    env: Map<Seq<char>, Seq<char>>,
) -> Step {
    if s[i] != '$' {
        Step { out: Ok(seq![s[i]]), next: i + 1 }
    } else if !flag_on(fl, Flag::NoEscape) && i + 1 < s.len() && s[i + 1] == '$' {
        if i + 2 >= s.len() || !(is_alpha(s[i + 2]) || s[i + 2] == '_') {
            Step { out: Ok(seq!['$', '$']), next: i + 2 }
        } else {
            Step { out: Ok(seq!['$']), next: i + 2 }
        }
    } else if i + 1 < s.len() && s[i + 1] == '{' {
        if i + 2 < s.len() && is_digit(s[i + 2]) {
            Step { out: Ok(seq!['$', '{', s[i + 2]]), next: i + 3 }
        } else {
            let b = brace_scan(s, i + 2, Seq::empty(), Seq::empty(), false);
            match b.end {
                BraceEnd::BrokenDefault => Step { out: Ok(seq!['$', '{'] + b.name + seq![':']), next: b.next },
                BraceEnd::Unterminated => Step { out: Ok(brace_text(b)), next: b.next },
                BraceEnd::Closed => Step {
                    out: substitute_var(b.name, brace_text(b) + seq!['}'], b.default, fl, fi, env),
                    next: b.next,
                },
            }
        }
    } else if i + 1 < s.len() && (is_alpha(s[i + 1]) || s[i + 1] == '_') {
        let e = ident_end(s, i + 1);
        let name = s.subrange(i + 1, e);
        Step { out: substitute_var(name, seq!['$'] + name, Seq::empty(), fl, fi, env), next: e }
    } else {
        Step { out: Ok(seq!['$']), next: i + 1 }
    }
}

/// `x` followed by the text of `r`; an error stays the error.
pub open spec fn prepend(x: Seq<char>, r: Result<Seq<char>, Seq<char>>) -> Result<Seq<char>, Seq<char>> {
    match r {
        Ok(y) => Ok(x + y),
        Err(e) => Err(e),
    }
}

/// The substitution of the text of `s` from position `i` on, step by step; the first error
/// ends it.
pub open spec fn process_from(
    s: Seq<char>,
    i: int,
    fl: Map<Flag, (Seq<char>, Option<bool>)>,
    fi: FiltersView,
    env: Map<Seq<char>, Seq<char>>,
) -> Result<Seq<char>, Seq<char>>
    decreases s.len() - i,
{
    if i < 0 || i >= s.len() {
        Ok(Seq::empty())
    } else {
        let st = step_at(s, i, fl, fi, env);
        if st.next <= i || st.next > s.len() {
            Ok(Seq::empty())
        } else {
            match st.out {
                Ok(x) => prepend(x, process_from(s, st.next, fl, fi, env)),
                Err(e) => Err(e),
            }
        }
    }
}

/// The substitution of a whole line.
pub open spec fn process_line_spec(
    s: Seq<char>,
    fl: Map<Flag, (Seq<char>, Option<bool>)>,
    fi: FiltersView,
    env: Map<Seq<char>, Seq<char>>,
) -> Result<Seq<char>, Seq<char>> {
    process_from(s, 0, fl, fi, env)
}

pub(crate) proof fn lemma_ident_end(s: Seq<char>, k: int)
    requires
        0 <= k <= s.len(),
    ensures
        k <= ident_end(s, k) <= s.len(),
    decreases s.len() - k,
{
    if k < s.len() && is_name_char(s[k]) {
        lemma_ident_end(s, k + 1);
    }
}

pub(crate) proof fn lemma_ident_end_at(s: Seq<char>, k: int, i: int)
    requires
        0 <= k <= i <= s.len(),
        forall|j: int| k <= j < i ==> is_name_char(#[trigger] s[j]),
        i < s.len() ==> !is_name_char(s[i]),
    ensures
        ident_end(s, k) == i,
    decreases i - k,
{
    if k < i {
        lemma_ident_end_at(s, k + 1, i);
    }
}

proof fn lemma_brace_scan(s: Seq<char>, k: int, name: Seq<char>, default: Seq<char>, found: bool)
    requires
        0 <= k <= s.len(),
    ensures
        k <= brace_scan(s, k, name, default, found).next <= s.len(),
        brace_scan(s, k, name, default, found).end is BrokenDefault ==> !brace_scan(s, k, name, default, found).has_default,
        k < s.len() ==> k < brace_scan(s, k, name, default, found).next,
    decreases s.len() - k,
{
    if k < s.len() {
        if s[k] == ':' && !found {
            if k + 1 < s.len() && s[k + 1] == '-' {
                lemma_brace_scan(s, k + 2, name, default, true);
            }
        } else if s[k] == '}' {
        } else if found {
            lemma_brace_scan(s, k + 1, name, default.push(s[k]), true);
        } else {
            lemma_brace_scan(s, k + 1, name.push(s[k]), default, found);
        }
    }
}

proof fn lemma_step_advances(
    s: Seq<char>,
    i: int,
    fl: Map<Flag, (Seq<char>, Option<bool>)>,
    fi: FiltersView,
    env: Map<Seq<char>, Seq<char>>,
)
    requires
        0 <= i < s.len(),
    ensures
        i < step_at(s, i, fl, fi, env).next <= s.len(),
{
    if i + 2 <= s.len() {
        lemma_brace_scan(s, i + 2, Seq::empty(), Seq::empty(), false);
    }
    lemma_ident_end(s, i + 1);
}

/// Retrieves the value that the variable `var_name` is replaced with; see [`env_var_value`].
///
/// * `original_variable`: the variable as written, kept when a no-replace flag applies.
/// * `default_value`: the default value given with `:-`, empty if none.
pub fn get_env_var_value(
    var_name: &str,
    original_variable: &str,
    default_value: &str,
    flags: &Flags,
    env: &Environment,
) -> (r: Result<String, String>)
    ensures
        match env_var_value(var_name@, original_variable@, default_value@, flags@, env@) {
            Ok(v) => r matches Ok(x) && x@ == v,
            Err(e) => r matches Err(x) && x@ == e,
        },
{
    let default_empty = default_value.is_empty();
    match env.get(var_name) {
        Some(value) => {
            let value_empty = value.as_str().is_empty();
            if value_empty && default_empty && flags.is_flag_set(Flag::FailOnEmpty) {
                let mut m = String::from_str("environment variable '");
                m.append(var_name);
                m.append("' is empty");
                Err(m)
            } else if value_empty && !default_empty {
                Ok(String::from_str(default_value))
            } else if value_empty && flags.is_flag_set(Flag::NoReplaceEmpty) {
                Ok(String::from_str(original_variable))
            } else {
                Ok(value)
            }
        },
        None => {
            if !default_empty {
                Ok(String::from_str(default_value))
            } else if flags.is_flag_set(Flag::FailOnUnset) {
                let mut m = String::from_str("environment variable '");
                m.append(var_name);
                m.append("' is not set");
                Err(m)
            } else if flags.is_flag_set(Flag::NoReplaceUnset) {
                Ok(String::from_str(original_variable))
            } else {
                Ok(String::new())
            }
        },
    }
}

/// Determines whether a variable name matches a set of filters: `None` if no filters are
/// set, otherwise whether it matches any of them.
pub fn matches_filters(filters: &Filters, var_name: &str) -> (r: Option<bool>)
    ensures
        r == filter_match(filters@, var_name@),
{
    filters.matches(var_name)
}

fn substitute_var_exec(
    name: &Vec<char>,
    original: &Vec<char>,
    default: &Vec<char>,
    flags: &Flags,
    filters: &Filters,
    env: &Environment,
) -> (r: Result<String, String>)
    ensures
        match substitute_var(name@, original@, default@, flags@, filters@, env@) {
            Ok(v) => r matches Ok(x) && x@ == v,
            Err(e) => r matches Err(x) && x@ == e,
        },
{
    let name_s = string_of(name);
    let original_s = string_of(original);
    if matches_filters(filters, name_s.as_str()) == Some(false) {
        return Ok(original_s);
    }
    let default_s = string_of(default);
    get_env_var_value(name_s.as_str(), original_s.as_str(), default_s.as_str(), flags, env)
}

#[verifier::loop_isolation(false)]
fn step_exec(s: &Vec<char>, i: usize, flags: &Flags, filters: &Filters, env: &Environment) -> (r: (Result<String, String>, usize))
    requires
        i < s@.len(),
    ensures
        r.1 == step_at(s@, i as int, flags@, filters@, env@).next,
        match step_at(s@, i as int, flags@, filters@, env@).out {
            Ok(v) => r.0 matches Ok(x) && x@ == v,
            Err(e) => r.0 matches Err(x) && x@ == e,
        },
{
    let c = s[i];
    let n = s.len();
    let mut out: Vec<char> = Vec::new();
    if c != '$' {
        out.push(c);
        return (Ok(string_of(&out)), i + 1);
    }
    if !flags.is_flag_set(Flag::NoEscape) && i + 1 < s.len() && s[i + 1] == '$' {
        out.push('$');
        if i + 2 >= s.len() || !(ascii_alpha(s[i + 2]) || s[i + 2] == '_') {
            out.push('$');
        }
        return (Ok(string_of(&out)), i + 2);
    }
    if i + 1 < s.len() && s[i + 1] == '{' {
        if i + 2 < s.len() && ascii_digit(s[i + 2]) {
            out.push('$');
            out.push('{');
            out.push(s[i + 2]);
            return (Ok(string_of(&out)), i + 3);
        }
        let mut name: Vec<char> = Vec::new();
        let mut default: Vec<char> = Vec::new();
        let mut found = false;
        let mut k: usize = i + 2;
        proof {
            lemma_brace_scan(s@, i + 2, Seq::empty(), Seq::empty(), false);
        }
        let ghost target = brace_scan(s@, i + 2, Seq::empty(), Seq::empty(), false);
        loop
            invariant
                i + 2 <= k <= s@.len(),
                brace_scan(s@, k as int, name@, default@, found) == target,
                target == brace_scan(s@, i + 2, Seq::empty(), Seq::empty(), false),
                out@ == Seq::<char>::empty(),
                i < s@.len(),
            decreases s@.len() - k,
        {
            if k >= s.len() {
                // the line ends inside the braces
                out.push('$');
                out.push('{');
                out.append(&mut name);
                if found {
                    out.push(':');
                    out.push('-');
                    out.append(&mut default);
                }
                proof {
                    assert(out@ =~= brace_text(target));
                }
                return (Ok(string_of(&out)), k);
            }
            let ch = s[k];
            if ch == ':' && !found {
                if k + 1 < s.len() && s[k + 1] == '-' {
                    found = true;
                    k = k + 2;
                    continue;
                }
                out.push('$');
                out.push('{');
                out.append(&mut name);
                out.push(':');
                proof {
                    assert(out@ =~= seq!['$', '{'] + target.name + seq![':']);
                }
                return (Ok(string_of(&out)), k + 1);
            }
            if ch == '}' {
                let mut original: Vec<char> = Vec::new();
                original.push('$');
                original.push('{');
                let mut n2 = name.clone();
                original.append(&mut n2);
                if found {
                    original.push(':');
                    original.push('-');
                    let mut d2 = default.clone();
                    original.append(&mut d2);
                }
                original.push('}');
                proof {
                    assert(target.end is Closed);
                    assert(target.name == name@);
                    assert(target.default == default@);
                    assert(target.has_default == found);
                    assert(target.next == k + 1);
                    assert(original@ =~= brace_text(target) + seq!['}']);
                }
                let r = substitute_var_exec(&name, &original, &default, flags, filters, env);
                return (r, k + 1);
            }
            if found {
                default.push(ch);
            } else {
                name.push(ch);
            }
            k = k + 1;
        }
    }
    if i + 1 < s.len() && (ascii_alpha(s[i + 1]) || s[i + 1] == '_') {
        let mut e: usize = i + 1;
        proof {
            lemma_ident_end(s@, i + 1);
        }
        while e < s.len() && (ascii_alnum(s[e]) || s[e] == '_')
            invariant
                i + 1 <= e <= s@.len(),
                ident_end(s@, e as int) == ident_end(s@, i + 1),
            decreases s@.len() - e,
        {
            e = e + 1;
        }
        let mut name: Vec<char> = Vec::new();
        let mut k: usize = i + 1;
        while k < e
            invariant
                i + 1 <= k <= e <= s@.len(),
                name@ == s@.subrange(i + 1, k as int),
            decreases e - k,
        {
            name.push(s[k]);
            assert(s@.subrange(i + 1, k + 1) =~= s@.subrange(i + 1, k as int).push(s@[k as int]));
            k = k + 1;
        }
        let mut original: Vec<char> = Vec::new();
        original.push('$');
        let mut n2 = name.clone();
        original.append(&mut n2);
        let empty: Vec<char> = Vec::new();
        let r = substitute_var_exec(&name, &original, &empty, flags, filters, env);
        return (r, e);
    }
    out.push('$');
    (Ok(string_of(&out)), i + 1)
}

/// Processes a single line of text and replaces all variables (`$VAR`, `${VAR}`,
/// `${VAR:-DEFAULT}`) with their values, as [`process_line_spec`] states.
pub fn process_line(line: &str, flags: &Flags, filters: &Filters, env: &Environment) -> (r: Result<String, String>)
    ensures
        match process_line_spec(line@, flags@, filters@, env@) {
            Ok(v) => r matches Ok(x) && x@ == v,
            Err(e) => r matches Err(x) && x@ == e,
        },
{
    let s = chars_of(line);
    let mut out: Vec<char> = Vec::new();
    let mut i: usize = 0;
    while i < s.len()
        invariant
            0 <= i <= s@.len(),
            s@ == line@,
            process_from(s@, 0, flags@, filters@, env@) == prepend(out@, process_from(s@, i as int, flags@, filters@, env@)),
        decreases s@.len() - i,
    {
        proof {
            lemma_step_advances(s@, i as int, flags@, filters@, env@);
        }
        let (piece, next) = step_exec(&s, i, flags, filters, env);
        match piece {
            Ok(p) => {
                let ghost before = out@;
                extend_str(&mut out, p.as_str());
                proof {
                    let rest = process_from(s@, next as int, flags@, filters@, env@);
                    assert(prepend(before, prepend(p@, rest)) == prepend(out@, rest)) by {
                        assert(before + p@ == out@);
                        match rest {
                            Ok(y) => {
                                assert(before + (p@ + y) =~= out@ + y);
                            },
                            Err(_) => {},
                        }
                    }
                }
                i = next;
            },
            Err(e) => {
                return Err(e);
            },
        }
    }
    let ghost rest = process_from(s@, i as int, flags@, filters@, env@);
    assert(out@ + Seq::<char>::empty() =~= out@);
    Ok(string_of(&out))
}

proof fn lemma_plain_from(
    s: Seq<char>,
    i: int,
    fl: Map<Flag, (Seq<char>, Option<bool>)>,
    fi: FiltersView,
    env: Map<Seq<char>, Seq<char>>,
)
    requires
        0 <= i <= s.len(),
        forall|j: int| i <= j < s.len() ==> s[j] != '$',
    ensures
        process_from(s, i, fl, fi, env) == Ok::<Seq<char>, Seq<char>>(s.skip(i)),
    decreases s.len() - i,
{
    if i < s.len() {
        lemma_plain_from(s, i + 1, fl, fi, env);
        assert(seq![s[i]] + s.skip(i + 1) =~= s.skip(i));
    } else {
        assert(s.skip(i) =~= Seq::<char>::empty());
    }
}

/// A line without `$` is left as it is.
pub proof fn law_line_without_variables_unchanged(
    s: Seq<char>,
    fl: Map<Flag, (Seq<char>, Option<bool>)>,
    fi: FiltersView,
    env: Map<Seq<char>, Seq<char>>,
)
    requires
        !s.contains('$'),
    ensures
        process_line_spec(s, fl, fi, env) == Ok::<Seq<char>, Seq<char>>(s),
{
    assert forall|j: int| 0 <= j < s.len() implies s[j] != '$' by {
        if s[j] == '$' {
            assert(s.contains(s[j]));
        }
    }
    lemma_plain_from(s, 0, fl, fi, env);
    assert(s.skip(0) =~= s);
}

} // verus!
