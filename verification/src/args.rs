//! The command line of the tool: its flags, filters, input and output.

use crate::errors::{ArgsErrorView, ParseArgsError};
use crate::filters::{add_to, with_filter, Filter, Filters, FiltersView};
use crate::flags::{law_duplicate_flag_refused, law_set_records_flag, set_outcome, Flag, Flags};
use crate::help::HELP_TEXT;
use crate::io::{with_path, InputOutput, IO};
use crate::text::{
    chars_of, extend_vec, find_char, head_of, lemma_split_once, split_once, str_eq, string_of, tail_of,
};
use crate::utils::{given_value, next_item, opt_view, start_parameters, value_outcome};
use vstd::prelude::*;
use vstd::std_specs::iter::IteratorSpec;

verus! {

/// The version of the tool, shown for `--version`.
pub const VERSION: &'static str = "0.1.0";

/// The parsed command-line arguments.
///
/// * `io`: the input and output paths.
/// * `version`: the version text, when `--version` was given.
/// * `help`: the help text, when `-h` or `--help` was given.
/// * `flags`: the flags that were given.
/// * `filters`: the filters that were given.
#[derive(Debug)]
pub struct Args {
    pub io: InputOutput,
    pub version: Option<String>,
    pub help: Option<String>,
    pub flags: Flags,
    pub filters: Filters,
}

/// The mathematical value of [`Args`].
pub struct ArgsView {
    pub io: (Option<Seq<char>>, Option<Seq<char>>),
    pub version: Option<Seq<char>>,
    pub help: Option<Seq<char>>,
    pub flags: Map<Flag, (Seq<char>, Option<bool>)>,
    pub filters: FiltersView,
}

/// The view of an optional string.
pub open spec fn opt_string(s: Option<String>) -> Option<Seq<char>> {
    match s {
        Some(s) => Some(s@),
        None => None,
    }
}

impl View for Args {
    type V = ArgsView;

    open spec fn view(&self) -> ArgsView {
        ArgsView {
            io: self.io@,
            version: opt_string(self.version),
            help: opt_string(self.help),
            flags: self.flags@,
            filters: self.filters@,
        }
    }
}

/// The arguments before any is parsed: no path, no version or help, no flag, no filter.
pub open spec fn initial_args() -> ArgsView {
    ArgsView {
        io: (None, None),
        version: None,
        help: None,
        flags: Map::empty(),
        filters: FiltersView { prefixes: None, suffixes: None, variables: None },
    }
}

/// `arg` split into its dashes (`--`, `-`, or the whole argument when it starts with
/// neither) and the rest.
pub open spec fn dash_split(arg: Seq<char>) -> (Seq<char>, Seq<char>) {
    if arg.len() >= 2 && arg[0] == '-' && arg[1] == '-' {
        (seq!['-', '-'], arg.skip(2))
    } else if arg.len() >= 1 && arg[0] == '-' {
        (seq!['-'], arg.skip(1))
    } else {
        (arg, Seq::empty())
    }
}

/// The flags that one argument stands for, each with the value given after `=`, if any.
///
/// A single dash followed by more than one character and no `=` is a group of short flags
/// (`-ue` stands for `-u` and `-e`); any other argument stands for itself, split at its
/// first `=` after the dashes.
pub open spec fn expand_spec(arg: Seq<char>) -> Seq<(Seq<char>, Option<Seq<char>>)> {
    let (prefix, body) = dash_split(arg);
    let (name, value) = split_once(body, '=');
    if prefix == seq!['-'] && name.len() > 1 && value is None {
        Seq::new(name.len(), |k: int| (seq!['-', name[k]], None::<Seq<char>>))
    } else {
        seq![(prefix + name, value)]
    }
}

/// The view of an expanded flag list.
pub open spec fn expanded_view(v: Seq<(String, Option<String>)>) -> Seq<(Seq<char>, Option<Seq<char>>)> {
    v.map_values(|p: (String, Option<String>)| (p.0@, opt_string(p.1)))
}

/// What a flag name asks for.
#[derive(Copy, Clone)]
pub enum Action {
    Help,
    Version,
    Path(IO),
    Switch(Flag),
    AddFilter(Filter),
    Unknown,
}

/// The action of the flag `name`.
pub open spec fn action_of(name: Seq<char>) -> Action {
    if name == "-h"@ || name == "--help"@ {
        Action::Help
    } else if name == "--version"@ {
        Action::Version
    } else if name == "-i"@ || name == "--input"@ {
        Action::Path(IO::Input)
    } else if name == "-o"@ || name == "--output"@ {
        Action::Path(IO::Output)
    } else if name == "-u"@ || name == "--fail-on-unset"@ {
        Action::Switch(Flag::FailOnUnset)
    } else if name == "-e"@ || name == "--fail-on-empty"@ {
        Action::Switch(Flag::FailOnEmpty)
    } else if name == "-f"@ || name == "--fail"@ {
        Action::Switch(Flag::Fail)
    } else if name == "-U"@ || name == "--no-replace-unset"@ {
        Action::Switch(Flag::NoReplaceUnset)
    } else if name == "-E"@ || name == "--no-replace-empty"@ {
        Action::Switch(Flag::NoReplaceEmpty)
    } else if name == "-N"@ || name == "--no-replace"@ {
        Action::Switch(Flag::NoReplace)
    } else if name == "-x"@ || name == "--no-escape"@ {
        Action::Switch(Flag::NoEscape)
    } else if name == "-b"@ || name == "--unbuffer-lines"@ {
        Action::Switch(Flag::UnbufferedLines)
    } else if name == "-c"@ || name == "--color"@ {
        Action::Switch(Flag::Color)
    } else if name == "-p"@ || name == "--prefix"@ {
        Action::AddFilter(Filter::Prefix)
    } else if name == "-s"@ || name == "--suffix"@ {
        Action::AddFilter(Filter::Suffix)
    } else if name == "-v"@ || name == "--variable"@ {
        Action::AddFilter(Filter::Variable)
    } else {
        Action::Unknown
    }
}

/// The value of a flag that takes one: the one given after `=`, else the next argument.
pub open spec fn given_arg(value: Option<Seq<char>>, rest: Seq<Seq<char>>) -> Option<Seq<char>> {
    match value {
        Some(v) => Some(v),
        None => if rest.len() > 0 {
            Some(rest[0])
        } else {
            None
        },
    }
}

/// The arguments left after a flag took its value: the next argument is used up when the
/// value was not given after `=`.
pub open spec fn after_value(value: Option<Seq<char>>, rest: Seq<Seq<char>>) -> Seq<Seq<char>> {
    if value is None && rest.len() > 0 {
        rest.drop_first()
    } else {
        rest
    }
}

/// The parse of the flags `pending` (from the argument being read) and then of the
/// arguments `rest`, from the state `st`.
///
/// Help and version end the parse at once; a flag that takes a value takes it after `=` or
/// from the next argument; the first error ends the parse.
pub open spec fn parse_from(
    st: ArgsView,
    pending: Seq<(Seq<char>, Option<Seq<char>>)>,
    rest: Seq<Seq<char>>,
) -> Result<ArgsView, ArgsErrorView>
    decreases rest.len(), pending.len(),
{
    if pending.len() == 0 {
        if rest.len() == 0 {
            Ok(st)
        } else {
            parse_from(st, expand_spec(rest[0]), rest.drop_first())
        }
    } else {
        let name = pending[0].0;
        let value = pending[0].1;
        let more = pending.drop_first();
        match action_of(name) {
            Action::Help => Ok(ArgsView { help: Some(HELP_TEXT@), ..st }),
            Action::Version => Ok(ArgsView { version: Some(VERSION@), ..st }),
            Action::Path(io) => match value_outcome(name, given_arg(value, rest)) {
                Err(e) => Err(e),
                Ok(v) => parse_from(ArgsView { io: with_path(st.io, io, v), ..st }, more, after_value(value, rest)),
            },
            Action::Switch(f) => match set_outcome(st.flags, f, name, true) {
                Err(e) => Err(e),
                Ok(m) => parse_from(ArgsView { flags: m, ..st }, more, rest),
            },
            Action::AddFilter(kind) => match value_outcome(name, given_arg(value, rest)) {
                Err(e) => Err(e),
                Ok(v) => parse_from(ArgsView { filters: with_filter(st.filters, kind, v), ..st }, more, after_value(value, rest)),
            },
            Action::Unknown => Err(ArgsErrorView::UnknownFlag(name)),
        }
    }
}

/// The parse of the command-line arguments `args`.
pub open spec fn parse_spec(args: Seq<Seq<char>>) -> Result<ArgsView, ArgsErrorView> {
    parse_from(initial_args(), Seq::empty(), args)
}

/// The text of each argument.
pub open spec fn arg_views(args: Seq<&str>) -> Seq<Seq<char>> {
    args.map_values(|a: &str| a@)
}

/// The text of each argument left to an iterator.
pub open spec fn rest_views(rest: Seq<&String>) -> Seq<Seq<char>> {
    rest.map_values(|a: &String| a@)
}

fn action_for(name: &str) -> (a: Action)
    ensures
        a == action_of(name@),
{
    if str_eq(name, "-h") || str_eq(name, "--help") {
        Action::Help
    } else if str_eq(name, "--version") {
        Action::Version
    } else if str_eq(name, "-i") || str_eq(name, "--input") {
        Action::Path(IO::Input)
    } else if str_eq(name, "-o") || str_eq(name, "--output") {
        Action::Path(IO::Output)
    } else if str_eq(name, "-u") || str_eq(name, "--fail-on-unset") {
        Action::Switch(Flag::FailOnUnset)
    } else if str_eq(name, "-e") || str_eq(name, "--fail-on-empty") {
        Action::Switch(Flag::FailOnEmpty)
    } else if str_eq(name, "-f") || str_eq(name, "--fail") {
        Action::Switch(Flag::Fail)
    } else if str_eq(name, "-U") || str_eq(name, "--no-replace-unset") {
        Action::Switch(Flag::NoReplaceUnset)
    } else if str_eq(name, "-E") || str_eq(name, "--no-replace-empty") {
        Action::Switch(Flag::NoReplaceEmpty)
    } else if str_eq(name, "-N") || str_eq(name, "--no-replace") {
        Action::Switch(Flag::NoReplace)
    } else if str_eq(name, "-x") || str_eq(name, "--no-escape") {
        Action::Switch(Flag::NoEscape)
    } else if str_eq(name, "-b") || str_eq(name, "--unbuffer-lines") {
        Action::Switch(Flag::UnbufferedLines)
    } else if str_eq(name, "-c") || str_eq(name, "--color") {
        Action::Switch(Flag::Color)
    } else if str_eq(name, "-p") || str_eq(name, "--prefix") {
        Action::AddFilter(Filter::Prefix)
    } else if str_eq(name, "-s") || str_eq(name, "--suffix") {
        Action::AddFilter(Filter::Suffix)
    } else if str_eq(name, "-v") || str_eq(name, "--variable") {
        Action::AddFilter(Filter::Variable)
    } else {
        Action::Unknown
    }
}

impl Default for Args {
    /// No path, no version or help text, no flag and no filter.
    fn default() -> (r: Args)
        ensures
            r@ == initial_args(),
    {
        Args::new()
    }
}

impl Args {
    /// No path, no version or help text, no flag and no filter.
    pub fn new() -> (r: Args)
        ensures
            r@ == initial_args(),
    {
        Args {
            io: InputOutput::new(),
            version: None,
            help: None,
            flags: Flags::default(),
            filters: Filters::default(),
        }
    }

    /// Expands combined short flags (`-abc`) into separate flags (`-a`, `-b`, `-c`); any other
    /// argument gives one flag, with the value given after its first `=`, if any. See
    /// [`expand_spec`].
    pub fn expand_combined_flags(arg: &str) -> (r: Vec<(String, Option<String>)>)
        ensures
            expanded_view(r@) == expand_spec(arg@),
    {
        let a = chars_of(arg);
        let (prefix, body): (Vec<char>, Vec<char>) = if a.len() >= 2 && a[0] == '-' && a[1] == '-' {
            (head_of(&a, 2), tail_of(&a, 2))
        } else if a.len() >= 1 && a[0] == '-' {
            (head_of(&a, 1), tail_of(&a, 1))
        } else {
            (a.clone(), Vec::new())
        };
        proof {
            if a@.len() >= 2 && a@[0] == '-' && a@[1] == '-' {
                assert(prefix@ =~= seq!['-', '-']);
            } else if a@.len() >= 1 && a@[0] == '-' {
                assert(prefix@ =~= seq!['-']);
            }
            assert((prefix@, body@) == dash_split(arg@));
        }
        let e = find_char(&body, '=');
        let name = head_of(&body, e);
        let value: Option<String> = if e < body.len() {
            Some(string_of(&tail_of(&body, e + 1)))
        } else {
            assert(body@.take(e as int) =~= body@);
            None
        };
        let single_dash = prefix.len() == 1 && prefix[0] == '-';
        proof {
            assert(single_dash == (prefix@ == seq!['-'])) by {
                if prefix@.len() == 1 && prefix@[0] == '-' {
                    assert(prefix@ =~= seq!['-']);
                }
            }
        }
        let mut expanded: Vec<(String, Option<String>)> = Vec::new();
        if single_dash && name.len() > 1 && value.is_none() {
            let mut k: usize = 0;
            while k < name.len()
                invariant
                    0 <= k <= name@.len(),
                    expanded_view(expanded@) =~= Seq::new(k as nat, |j: int| (seq!['-', name@[j]], None::<Seq<char>>)),
                decreases name@.len() - k,
            {
                let mut f: Vec<char> = Vec::new();
                f.push('-');
                f.push(name[k]);
                let flag = string_of(&f);
                assert(flag@ =~= seq!['-', name@[k as int]]);
                let ghost before = expanded@;
                expanded.push((flag, None));
                assert(expanded_view(expanded@) =~= expanded_view(before).push((flag@, None::<Seq<char>>)));
                assert(Seq::new((k + 1) as nat, |j: int| (seq!['-', name@[j]], None::<Seq<char>>)) =~= Seq::new(
                    k as nat,
                    |j: int| (seq!['-', name@[j]], None::<Seq<char>>),
                ).push((seq!['-', name@[k as int]], None::<Seq<char>>)));
                k = k + 1;
            }
        } else {
            let mut f = prefix.clone();
            extend_vec(&mut f, &name);
            expanded.push((string_of(&f), value));
            assert(expanded_view(expanded@) =~= seq![(prefix@ + name@, opt_string(value))]);
        }
        expanded
    }

    /// Parses the command-line arguments `args` (without the program's name); see
    /// [`parse_spec`].
    ///
    /// Combined short flags are expanded; each flag sets a path, a flag or a filter, taking
    /// its value after `=` or from the next argument. `-h`/`--help` and `--version` end the
    /// parse. Errors: `UnknownFlag` for an argument that is no flag of the tool,
    /// `MissingValue` for a flag without its value, and the errors of [`Flags::set`].
    pub fn parse(args: Vec<&str>) -> (r: Result<Args, ParseArgsError>)
        ensures
            match parse_spec(arg_views(args@)) {
                Ok(v) => r matches Ok(a) && a@ == v,
                Err(e) => r matches Err(err) && err@ == e,
            },
    {
        let mut owned: Vec<String> = Vec::new();
        let mut i: usize = 0;
        while i < args.len()
            invariant
                0 <= i <= args@.len(),
                owned@.map_values(|a: String| a@) =~= arg_views(args@).take(i as int),
            decreases args@.len() - i,
        {
            let ghost before = owned@;
            owned.push(String::from_str(args[i]));
            assert(owned@.map_values(|a: String| a@) =~= before.map_values(|a: String| a@).push(args@[i as int]@));
            assert(arg_views(args@).take(i + 1) =~= arg_views(args@).take(i as int).push(args@[i as int]@));
            i = i + 1;
        }
        assert(arg_views(args@).take(i as int) =~= arg_views(args@));
        let mut iter = owned.as_slice().iter();
        assert(rest_views(iter.remaining()) =~= arg_views(args@));
        let mut parsed = Args::new();
        loop
            invariant
                iter.decrease() is Some,
                parse_spec(arg_views(args@)) == parse_from(parsed@, Seq::empty(), rest_views(iter.remaining())),
            decreases iter.decrease()->0,
        {
            let ghost before = iter.remaining();
            let arg = match next_item(&mut iter) {
                Some(a) => a,
                None => {
                    return Ok(parsed);
                },
            };
            assert(rest_views(iter.remaining()) =~= rest_views(before).drop_first());
            let expanded = Args::expand_combined_flags(arg.as_str());
            let ghost d0 = iter.decrease()->0;
            let mut k: usize = 0;
            assert(expanded_view(expanded@).skip(0) =~= expanded_view(expanded@));
            while k < expanded.len()
                invariant
                    0 <= k <= expanded@.len(),
                    iter.decrease() is Some,
                    iter.decrease()->0 <= d0,
                    parse_spec(arg_views(args@)) == parse_from(
                        parsed@,
                        expanded_view(expanded@).skip(k as int),
                        rest_views(iter.remaining()),
                    ),
                decreases expanded@.len() - k,
            {
                let flag = expanded[k].0.as_str();
                let value: Option<&str> = match &expanded[k].1 {
                    Some(v) => Some(v.as_str()),
                    None => None,
                };
                let ghost pending = expanded_view(expanded@).skip(k as int);
                let ghost rest = rest_views(iter.remaining());
                let ghost old_iter = iter;
                assert(pending[0] == (flag@, opt_view(value)));
                assert(pending.drop_first() =~= expanded_view(expanded@).skip(k + 1));
                assert(given_arg(opt_view(value), rest) == given_value(opt_view(value), iter.remaining()));
                match action_for(flag) {
                    Action::Help => {
                        parsed.help = Some(String::from_str(HELP_TEXT));
                        return Ok(parsed);
                    },
                    Action::Version => {
                        parsed.version = Some(String::from_str(VERSION));
                        return Ok(parsed);
                    },
                    Action::Path(io) => {
                        parsed.io.set(io, flag, value, &mut iter)?;
                        assert(rest_views(iter.remaining()) =~= after_value(opt_view(value), rest));
                    },
                    Action::Switch(f) => {
                        parsed.flags.set(f, flag, true)?;
                    },
                    Action::AddFilter(kind) => {
                        parsed.filters.add(kind, flag, value, &mut iter)?;
                        assert(rest_views(iter.remaining()) =~= after_value(opt_view(value), rest));
                    },
                    Action::Unknown => {
                        return Err(ParseArgsError::UnknownFlag(String::from_str(flag)));
                    },
                }
                k = k + 1;
            }
            assert(expanded_view(expanded@).skip(k as int) =~= Seq::<(Seq<char>, Option<Seq<char>>)>::empty());
        }
    }
}

/// The flags of a group of short flags, each without a value.
pub open spec fn group_flags(group: Seq<char>) -> Seq<(Seq<char>, Option<Seq<char>>)> {
    Seq::new(group.len(), |k: int| (seq!['-', group[k]], None::<Seq<char>>))
}

/// The short flags of a group, as separate arguments.
pub open spec fn group_args(group: Seq<char>) -> Seq<Seq<char>> {
    Seq::new(group.len(), |k: int| seq!['-', group[k]])
}

/// A character that can stand in a group of short flags that take no value.
pub open spec fn plain_short_flag(c: char) -> bool {
    &&& c != '-'
    &&& c != '='
    &&& !(action_of(seq!['-', c]) is Path)
    &&& !(action_of(seq!['-', c]) is AddFilter)
}

proof fn lemma_expand_single(c: char)
    requires
        c != '-',
        c != '=',
    ensures
        expand_spec(seq!['-', c]) == seq![(seq!['-', c], None::<Seq<char>>)],
{
    let arg = seq!['-', c];
    assert(arg.skip(1) =~= seq![c]);
    lemma_split_once(seq![c], '=', 1);
    assert(seq![c].take(1) =~= seq![c]);
    assert(seq!['-'] + seq![c] =~= arg);
}

proof fn lemma_expand_group(group: Seq<char>)
    requires
        group.len() > 1,
        forall|k: int| 0 <= k < group.len() ==> plain_short_flag(#[trigger] group[k]),
    ensures
        expand_spec(seq!['-'] + group) == group_flags(group),
{
    let arg = seq!['-'] + group;
    assert(plain_short_flag(group[0]));
    assert(arg[1] == group[0]);
    assert(arg.skip(1) =~= group);
    assert forall|j: int| 0 <= j < group.len() implies group[j] != '=' by {
        assert(plain_short_flag(group[j]));
    }
    lemma_split_once(group, '=', group.len() as int);
    assert(expand_spec(arg) =~= group_flags(group));
}

proof fn lemma_group_parse(st: ArgsView, group: Seq<char>, k: int, rest: Seq<Seq<char>>)
    requires
        0 <= k <= group.len(),
        forall|j: int| 0 <= j < group.len() ==> plain_short_flag(#[trigger] group[j]),
    ensures
        parse_from(st, group_flags(group).skip(k), rest) == parse_from(st, Seq::empty(), group_args(group).skip(k) + rest),
    decreases group.len() - k,
{
    if k == group.len() {
        assert(group_flags(group).skip(k) =~= Seq::<(Seq<char>, Option<Seq<char>>)>::empty());
        assert(group_args(group).skip(k) + rest =~= rest);
    } else {
        let c = group[k];
        assert(plain_short_flag(c));
        let name = seq!['-', c];
        let p = (name, None::<Seq<char>>);
        let pending = group_flags(group).skip(k);
        assert(pending[0] == p);
        assert(pending.drop_first() =~= group_flags(group).skip(k + 1));
        let r = group_args(group).skip(k) + rest;
        assert(r[0] == name);
        assert(r.drop_first() =~= group_args(group).skip(k + 1) + rest);
        lemma_expand_single(c);
        assert(seq![p].drop_first() =~= Seq::<(Seq<char>, Option<Seq<char>>)>::empty());
        reveal_strlit("--version");
        assert(name != "--version"@) by {
            assert(name.len() != "--version"@.len());
        }
        let r2 = group_args(group).skip(k + 1) + rest;
        assert(parse_from(st, Seq::empty(), r) == parse_from(st, seq![p], r2));
        match action_of(name) {
            Action::Switch(f) => {
                if let Ok(m) = set_outcome(st.flags, f, name, true) {
                    let st2 = ArgsView { flags: m, ..st };
                    lemma_group_parse(st2, group, k + 1, rest);
                    assert(parse_from(st, seq![p], r2) == parse_from(st2, Seq::empty(), r2));
                    assert(parse_from(st, pending, rest) == parse_from(st2, group_flags(group).skip(k + 1), rest));
                }
            },
            _ => {},
        }
    }
}

/// A group of short flags is read as its flags one after the other: `-ue` as `-u -e`.
///
/// This holds for groups of flags that take no value: a flag that takes one would, given
/// apart, take the next flag of the group as its value.
pub proof fn law_combined_short_flags(group: Seq<char>, rest: Seq<Seq<char>>)
    requires
        group.len() > 1,
        forall|k: int| 0 <= k < group.len() ==> plain_short_flag(#[trigger] group[k]),
    ensures
        parse_spec(seq![seq!['-'] + group] + rest) == parse_spec(group_args(group) + rest),
{
    let all = seq![seq!['-'] + group] + rest;
    assert(all[0] == seq!['-'] + group);
    assert(all.drop_first() =~= rest);
    lemma_expand_group(group);
    lemma_group_parse(initial_args(), group, 0, rest);
    assert(group_flags(group).skip(0) =~= group_flags(group));
    assert(group_args(group).skip(0) =~= group_args(group));
}

/// A flag that takes no value cannot be given twice: the second time it is refused (as a
/// duplicate, or as a conflict when a flag that conflicts with it came in between).
pub proof fn law_repeated_flag_refused(x: Seq<char>, rest: Seq<Seq<char>>)
    requires
        action_of(x) is Switch,
        expand_spec(x) == seq![(x, None::<Seq<char>>)],
    ensures
        parse_spec(seq![x, x] + rest) is Err,
{
    let args = seq![x, x] + rest;
    let st = initial_args();
    let f = action_of(x)->Switch_0;
    let p = (x, None::<Seq<char>>);
    assert(args[0] == x);
    assert(args.drop_first() == seq![x] + rest) by {
        assert(args.drop_first() =~= seq![x] + rest);
    }
    assert((seq![x] + rest)[0] == x);
    assert((seq![x] + rest).drop_first() =~= rest);
    assert(seq![p].drop_first() =~= Seq::<(Seq<char>, Option<Seq<char>>)>::empty());
    let empty = Seq::<(Seq<char>, Option<Seq<char>>)>::empty();
    assert(parse_spec(args) == parse_from(st, seq![p], seq![x] + rest));
    match set_outcome(st.flags, f, x, true) {
        Ok(m) => {
            law_set_records_flag(st.flags, f, x, true);
            law_duplicate_flag_refused(m, f, x, true);
            let st2 = ArgsView { flags: m, ..st };
            assert(parse_from(st, seq![p], seq![x] + rest) == parse_from(st2, empty, seq![x] + rest));
            assert(parse_from(st2, empty, seq![x] + rest) == parse_from(st2, seq![p], rest));
            assert(parse_from(st2, seq![p], rest) is Err);
        },
        Err(e) => {
            assert(parse_from(st, seq![p], seq![x] + rest) is Err);
        },
    }
}

/// `--help` ends the parse: the arguments after it are not read, and the help text is
/// given.
pub proof fn law_help_ends_parse(rest: Seq<Seq<char>>)
    ensures
        parse_spec(seq!["--help"@] + rest) == Ok::<ArgsView, ArgsErrorView>(ArgsView { help: Some(HELP_TEXT@), ..initial_args() }),
{
    reveal_strlit("--help");
    let arg = "--help"@;
    let args = seq![arg] + rest;
    assert(args[0] == arg);
    assert(args.drop_first() =~= rest);
    assert(arg.skip(2) =~= seq!['h', 'e', 'l', 'p']);
    lemma_split_once(arg.skip(2), '=', 4);
    assert(arg.skip(2).take(4) =~= arg.skip(2));
    assert(seq!['-', '-'] + arg.skip(2) =~= arg);
    assert(dash_split(arg) == (seq!['-', '-'], arg.skip(2)));
    assert(expand_spec(arg) == seq![(arg, None::<Seq<char>>)]);
    assert(action_of(arg) is Help);
    assert(parse_spec(args) == parse_from(initial_args(), seq![(arg, None::<Seq<char>>)], rest));
}

/// Tells the flag names apart: each has its length and, at one place, its own character.
proof fn lemma_flag_names()
    ensures
        "-h"@.len() == 2 && "-h"@[1] == 'h',
        "--help"@.len() == 6 && "--help"@[2] == 'h',
        "--version"@.len() == 9 && "--version"@[2] == 'v',
        "-i"@.len() == 2 && "-i"@[1] == 'i',
        "--input"@.len() == 7 && "--input"@[2] == 'i',
        "-o"@.len() == 2 && "-o"@[1] == 'o',
        "--output"@.len() == 8 && "--output"@[2] == 'o',
        "-u"@.len() == 2 && "-u"@[1] == 'u',
        "--fail-on-unset"@.len() == 15 && "--fail-on-unset"@[2] == 'f' && "--fail-on-unset"@[10] == 'u',
        "-e"@.len() == 2 && "-e"@[1] == 'e',
        "--fail-on-empty"@.len() == 15 && "--fail-on-empty"@[2] == 'f' && "--fail-on-empty"@[10] == 'e',
        "-f"@.len() == 2 && "-f"@[1] == 'f',
        "--fail"@.len() == 6 && "--fail"@[2] == 'f',
        "-U"@.len() == 2 && "-U"@[1] == 'U',
        "--no-replace-unset"@.len() == 18 && "--no-replace-unset"@[2] == 'n' && "--no-replace-unset"@[13] == 'u',
        "-E"@.len() == 2 && "-E"@[1] == 'E',
        "--no-replace-empty"@.len() == 18 && "--no-replace-empty"@[2] == 'n' && "--no-replace-empty"@[13] == 'e',
        "-N"@.len() == 2 && "-N"@[1] == 'N',
        "--no-replace"@.len() == 12 && "--no-replace"@[2] == 'n',
        "-x"@.len() == 2 && "-x"@[1] == 'x',
        "--no-escape"@.len() == 11 && "--no-escape"@[2] == 'n',
        "-b"@.len() == 2 && "-b"@[1] == 'b',
        "--unbuffer-lines"@.len() == 16 && "--unbuffer-lines"@[2] == 'u',
        "-c"@.len() == 2 && "-c"@[1] == 'c',
        "--color"@.len() == 7 && "--color"@[2] == 'c',
        "-p"@.len() == 2 && "-p"@[1] == 'p',
        "--prefix"@.len() == 8 && "--prefix"@[2] == 'p',
        "-s"@.len() == 2 && "-s"@[1] == 's',
        "--suffix"@.len() == 8 && "--suffix"@[2] == 's',
        "-v"@.len() == 2 && "-v"@[1] == 'v',
        "--variable"@.len() == 10 && "--variable"@[2] == 'v',
{
    reveal_strlit("-h");
    reveal_strlit("--help");
    reveal_strlit("--version");
    reveal_strlit("-i");
    reveal_strlit("--input");
    reveal_strlit("-o");
    reveal_strlit("--output");
    reveal_strlit("-u");
    reveal_strlit("--fail-on-unset");
    reveal_strlit("-e");
    reveal_strlit("--fail-on-empty");
    reveal_strlit("-f");
    reveal_strlit("--fail");
    reveal_strlit("-U");
    reveal_strlit("--no-replace-unset");
    reveal_strlit("-E");
    reveal_strlit("--no-replace-empty");
    reveal_strlit("-N");
    reveal_strlit("--no-replace");
    reveal_strlit("-x");
    reveal_strlit("--no-escape");
    reveal_strlit("-b");
    reveal_strlit("--unbuffer-lines");
    reveal_strlit("-c");
    reveal_strlit("--color");
    reveal_strlit("-p");
    reveal_strlit("--prefix");
    reveal_strlit("-s");
    reveal_strlit("--suffix");
    reveal_strlit("-v");
    reveal_strlit("--variable");
}

/// Each short flag does what its long form does: `-s` is `--suffix`, `-p` is `--prefix`,
/// `-u` is `--fail-on-unset`, and so on for every flag that has both forms.
pub proof fn law_short_and_long_flags()
    ensures
        action_of("-h"@) == action_of("--help"@),
        action_of("-i"@) == action_of("--input"@),
        action_of("-o"@) == action_of("--output"@),
        action_of("-u"@) == action_of("--fail-on-unset"@),
        action_of("-e"@) == action_of("--fail-on-empty"@),
        action_of("-f"@) == action_of("--fail"@),
        action_of("-U"@) == action_of("--no-replace-unset"@),
        action_of("-E"@) == action_of("--no-replace-empty"@),
        action_of("-N"@) == action_of("--no-replace"@),
        action_of("-x"@) == action_of("--no-escape"@),
        action_of("-b"@) == action_of("--unbuffer-lines"@),
        action_of("-c"@) == action_of("--color"@),
        action_of("-p"@) == action_of("--prefix"@),
        action_of("-s"@) == action_of("--suffix"@),
        action_of("-v"@) == action_of("--variable"@),
{
    lemma_flag_names();
}

/// A flag without `=` that stands for itself.
proof fn lemma_expand_flag(arg: Seq<char>)
    requires
        arg.len() >= 2,
        arg[0] == '-',
        arg[1] == '-' || arg.len() == 2,
        forall|j: int| 0 <= j < arg.len() ==> #[trigger] arg[j] != '=',
    ensures
        expand_spec(arg) == seq![(arg, None::<Seq<char>>)],
{
    if arg[1] == '-' {
        let body = arg.skip(2);
        assert forall|j: int| 0 <= j < body.len() implies body[j] != '=' by {
            assert(body[j] == arg[j + 2]);
        }
        lemma_split_once(body, '=', body.len() as int);
        assert(seq!['-', '-'] + body =~= arg);
    } else {
        let body = arg.skip(1);
        assert(body =~= seq![arg[1]]);
        lemma_split_once(body, '=', 1);
        assert(body.take(1) =~= body);
        assert(seq!['-'] + body =~= arg);
    }
}

/// A filter flag followed by its value, the whole command line.
proof fn lemma_filter_parse(flag: Seq<char>, kind: Filter, x: Seq<char>)
    requires
        action_of(flag) == Action::AddFilter(kind),
        expand_spec(flag) == seq![(flag, None::<Seq<char>>)],
        !start_parameters().contains(x),
    ensures
        parse_spec(seq![flag, x]) == Ok::<ArgsView, ArgsErrorView>(
            ArgsView { filters: with_filter(initial_args().filters, kind, x), ..initial_args() },
        ),
{
    let args = seq![flag, x];
    let st = initial_args();
    let p = (flag, None::<Seq<char>>);
    let empty = Seq::<(Seq<char>, Option<Seq<char>>)>::empty();
    assert(args.drop_first() =~= seq![x]);
    assert(seq![x].drop_first() =~= Seq::<Seq<char>>::empty());
    assert(seq![p].drop_first() =~= empty);
    assert(parse_spec(args) == parse_from(st, seq![p], seq![x]));
    assert(given_arg(None, seq![x]) == Some(x));
    assert(value_outcome(flag, Some(x)) == Ok::<Seq<char>, ArgsErrorView>(x));
    assert(after_value(None, seq![x]) =~= Seq::<Seq<char>>::empty());
    let st2 = ArgsView { filters: with_filter(st.filters, kind, x), ..st };
    assert(parse_from(st2, empty, Seq::<Seq<char>>::empty()) == Ok::<ArgsView, ArgsErrorView>(st2));
    assert(parse_from(st, seq![p], seq![x]) == parse_from(st2, empty, Seq::<Seq<char>>::empty()));
}

/// `-p`/`--prefix`, `-s`/`--suffix` and `-v`/`--variable`, each followed by a value, set
/// that one filter to that value alone: `-s _URL` gives the suffix `_URL` and no prefix or
/// variable filter. (A value that is itself one of the tool's flags is refused instead.)
pub proof fn law_filter_flags(x: Seq<char>)
    requires
        !start_parameters().contains(x),
    ensures
        parse_spec(seq!["-p"@, x]) == Ok::<ArgsView, ArgsErrorView>(ArgsView { filters: FiltersView { prefixes: Some(set![x]), suffixes: None, variables: None }, ..initial_args() }),
        parse_spec(seq!["--prefix"@, x]) == Ok::<ArgsView, ArgsErrorView>(ArgsView { filters: FiltersView { prefixes: Some(set![x]), suffixes: None, variables: None }, ..initial_args() }),
        parse_spec(seq!["-s"@, x]) == Ok::<ArgsView, ArgsErrorView>(ArgsView { filters: FiltersView { prefixes: None, suffixes: Some(set![x]), variables: None }, ..initial_args() }),
        parse_spec(seq!["--suffix"@, x]) == Ok::<ArgsView, ArgsErrorView>(ArgsView { filters: FiltersView { prefixes: None, suffixes: Some(set![x]), variables: None }, ..initial_args() }),
        parse_spec(seq!["-v"@, x]) == Ok::<ArgsView, ArgsErrorView>(ArgsView { filters: FiltersView { prefixes: None, suffixes: None, variables: Some(set![x]) }, ..initial_args() }),
        parse_spec(seq!["--variable"@, x]) == Ok::<ArgsView, ArgsErrorView>(ArgsView { filters: FiltersView { prefixes: None, suffixes: None, variables: Some(set![x]) }, ..initial_args() }),
{
    reveal_strlit("-p");
    reveal_strlit("--prefix");
    reveal_strlit("-s");
    reveal_strlit("--suffix");
    reveal_strlit("-v");
    reveal_strlit("--variable");
    lemma_flag_names();
    assert("-p"@ =~= seq!['-', 'p']);
    lemma_expand_flag("-p"@);
    lemma_filter_parse("-p"@, Filter::Prefix, x);
    assert("--prefix"@ =~= seq!['-', '-', 'p', 'r', 'e', 'f', 'i', 'x']);
    lemma_expand_flag("--prefix"@);
    lemma_filter_parse("--prefix"@, Filter::Prefix, x);
    assert("-s"@ =~= seq!['-', 's']);
    lemma_expand_flag("-s"@);
    lemma_filter_parse("-s"@, Filter::Suffix, x);
    assert("--suffix"@ =~= seq!['-', '-', 's', 'u', 'f', 'f', 'i', 'x']);
    lemma_expand_flag("--suffix"@);
    lemma_filter_parse("--suffix"@, Filter::Suffix, x);
    assert("-v"@ =~= seq!['-', 'v']);
    lemma_expand_flag("-v"@);
    lemma_filter_parse("-v"@, Filter::Variable, x);
    assert("--variable"@ =~= seq!['-', '-', 'v', 'a', 'r', 'i', 'a', 'b', 'l', 'e']);
    lemma_expand_flag("--variable"@);
    lemma_filter_parse("--variable"@, Filter::Variable, x);
    assert(add_to(None, x) == Some(set![x]));
}

} // verus!
