//! The behaviour flags given on the command line (`--fail`, `--no-replace`, ...).

use crate::errors::{ArgsErrorView, ParseArgsError};
use vstd::prelude::*;

verus! {

/// An enumeration of possible command-line flags supported by the application.
///
/// * `FailOnUnset`: Enables the fail-on-unset behavior.
/// * `FailOnEmpty`: Enables the fail-on-empty behavior.
/// * `Fail`: Enables the fail behavior.
/// * `NoReplaceUnset`: Disables replacing unset variables.
/// * `NoReplaceEmpty`: Disables replacing empty variables.
/// * `NoReplace`: Disables replacing both unset and empty variables.
/// * `NoEscape`: Disables escape character interpretation.
/// * `UnbufferedLines`: Enables unbuffered lines mode.
/// * `Color`: Enables colored output.
#[derive(Debug, PartialEq, Eq, Structural, Hash, Copy, Clone)]
#[non_exhaustive]
pub enum Flag {
    FailOnUnset,
    FailOnEmpty,
    Fail,
    NoReplaceUnset,
    NoReplaceEmpty,
    NoReplace,
    NoEscape,
    UnbufferedLines,
    Color,
}

/// Number of [`Flag`] variants.
pub const FLAG_COUNT: usize = 9;

/// The position of a flag in the table kept by [`Flags`].
pub open spec fn flag_index(f: Flag) -> int {
    match f {
        Flag::FailOnUnset => 0,
        Flag::FailOnEmpty => 1,
        Flag::Fail => 2,
        Flag::NoReplaceUnset => 3,
        Flag::NoReplaceEmpty => 4,
        Flag::NoReplace => 5,
        Flag::NoEscape => 6,
        Flag::UnbufferedLines => 7,
        Flag::Color => 8,
    }
}

fn index_of(f: Flag) -> (i: usize)
    ensures
        i == flag_index(f),
{
    match f {
        Flag::FailOnUnset => 0,
        Flag::FailOnEmpty => 1,
        Flag::Fail => 2,
        Flag::NoReplaceUnset => 3,
        Flag::NoReplaceEmpty => 4,
        Flag::NoReplace => 5,
        Flag::NoEscape => 6,
        Flag::UnbufferedLines => 7,
        Flag::Color => 8,
    }
}

/// The flag stored at a position of the table.
pub open spec fn flag_at(i: int) -> Flag {
    if i == 0 {
        Flag::FailOnUnset
    } else if i == 1 {
        Flag::FailOnEmpty
    } else if i == 2 {
        Flag::Fail
    } else if i == 3 {
        Flag::NoReplaceUnset
    } else if i == 4 {
        Flag::NoReplaceEmpty
    } else if i == 5 {
        Flag::NoReplace
    } else if i == 6 {
        Flag::NoEscape
    } else if i == 7 {
        Flag::UnbufferedLines
    } else {
        Flag::Color
    }
}

proof fn lemma_flag_index(f: Flag)
    ensures
        0 <= flag_index(f) < FLAG_COUNT,
        flag_at(flag_index(f)) == f,
{
}

/// A command-line flag item, containing both the flag name and its associated value.
#[derive(Debug, Default, Clone)]
pub struct FlagItem {
    /// The name of the flag as passed on the command line (e.g., "--fail", "-f").
    pub flag: String,
    /// The boolean value associated with the flag.
    pub value: Option<bool>,
}

impl View for FlagItem {
    type V = (Seq<char>, Option<bool>);

    open spec fn view(&self) -> (Seq<char>, Option<bool>) {
        (self.flag@, self.value)
    }
}

/// The flags that must not be combined with `f`, in the order in which they are checked.
pub open spec fn conflicts(f: Flag) -> Seq<Flag> {
    match f {
        Flag::FailOnUnset => seq![Flag::Fail, Flag::NoReplaceUnset, Flag::NoReplace],
        Flag::FailOnEmpty => seq![Flag::Fail, Flag::NoReplaceEmpty, Flag::NoReplace],
        Flag::Fail => seq![
            Flag::FailOnUnset,
            Flag::FailOnEmpty,
            Flag::NoReplace,
            Flag::NoReplaceUnset,
            Flag::NoReplaceEmpty,
        ],
        Flag::NoReplaceUnset => seq![Flag::FailOnUnset, Flag::NoReplace, Flag::Fail],
        Flag::NoReplaceEmpty => seq![Flag::FailOnEmpty, Flag::NoReplace, Flag::Fail],
        Flag::NoReplace => seq![
            Flag::NoReplaceUnset,
            Flag::NoReplaceEmpty,
            Flag::Fail,
            Flag::FailOnUnset,
            Flag::FailOnEmpty,
        ],
        _ => seq![],
    }
}

fn conflicting_options(f: Flag) -> (v: Vec<Flag>)
    ensures
        v@ == conflicts(f),
{
    match f {
        Flag::FailOnUnset => vec![Flag::Fail, Flag::NoReplaceUnset, Flag::NoReplace],
        Flag::FailOnEmpty => vec![Flag::Fail, Flag::NoReplaceEmpty, Flag::NoReplace],
        Flag::Fail => vec![
            Flag::FailOnUnset,
            Flag::FailOnEmpty,
            Flag::NoReplace,
            Flag::NoReplaceUnset,
            Flag::NoReplaceEmpty,
        ],
        Flag::NoReplaceUnset => vec![Flag::FailOnUnset, Flag::NoReplace, Flag::Fail],
        Flag::NoReplaceEmpty => vec![Flag::FailOnEmpty, Flag::NoReplace, Flag::Fail],
        Flag::NoReplace => vec![
            Flag::NoReplaceUnset,
            Flag::NoReplaceEmpty,
            Flag::Fail,
            Flag::FailOnUnset,
            Flag::FailOnEmpty,
        ],
        _ => vec![],
    }
}

/// Whether `f` is recorded in `m` with the value `true`.
pub open spec fn flag_on(m: Map<Flag, (Seq<char>, Option<bool>)>, f: Flag) -> bool {
    m.contains_key(f) && m[f].1 == Some(true)
}

/// The first flag of `fs` that is on in `m`, if any.
pub open spec fn first_on(m: Map<Flag, (Seq<char>, Option<bool>)>, fs: Seq<Flag>) -> Option<Flag>
    decreases fs.len(),
{
    if fs.len() == 0 {
        None
    } else if flag_on(m, fs[0]) {
        Some(fs[0])
    } else {
        first_on(m, fs.drop_first())
    }
}

proof fn lemma_first_on_none(m: Map<Flag, (Seq<char>, Option<bool>)>, fs: Seq<Flag>)
    ensures
        first_on(m, fs) is None <==> forall|i: int| 0 <= i < fs.len() ==> !flag_on(m, #[trigger] fs[i]),
        first_on(m, fs) matches Some(f) ==> flag_on(m, f) && fs.contains(f),
    decreases fs.len(),
{
    if fs.len() > 0 {
        lemma_first_on_none(m, fs.drop_first());
        if !flag_on(m, fs[0]) {
            assert forall|i: int| 1 <= i < fs.len() implies fs[i] == fs.drop_first()[i - 1] by {}
            if let Some(f) = first_on(m, fs) {
                let j = choose|j: int| 0 <= j < fs.drop_first().len() && fs.drop_first()[j] == f;
                assert(fs[j + 1] == f);
            }
        } else {
            assert(fs[0] == fs[0]);
        }
    }
}

/// The state after `set(f, name, value)` on a state whose map is `m`: the error, or the new map.
pub open spec fn set_outcome(
    m: Map<Flag, (Seq<char>, Option<bool>)>,
    f: Flag,
    name: Seq<char>,
    value: bool,
) -> Result<Map<Flag, (Seq<char>, Option<bool>)>, ArgsErrorView> {
    match first_on(m, conflicts(f)) {
        Some(c) => Err(ArgsErrorView::ConflictingFlags(name, m[c].0)),
        None => if flag_on(m, f) {
            Err(ArgsErrorView::DuplicateFlag(name))
        } else {
            Ok(m.insert(f, (name, Some(value))))
        },
    }
}

/// The long name of a flag on the command line.
pub open spec fn long_name(f: Flag) -> Seq<char> {
    match f {
        Flag::FailOnUnset => "--fail-on-unset"@,
        Flag::FailOnEmpty => "--fail-on-empty"@,
        Flag::Fail => "--fail"@,
        Flag::NoReplaceUnset => "--no-replace-unset"@,
        Flag::NoReplaceEmpty => "--no-replace-empty"@,
        Flag::NoReplace => "--no-replace"@,
        Flag::NoEscape => "--no-escape"@,
        Flag::UnbufferedLines => "--unbuffer-lines"@,
        Flag::Color => "--color"@,
    }
}

/// See [`long_name`].
pub fn flag_name(f: Flag) -> (r: &'static str)
    ensures
        r@ == long_name(f),
{
    match f {
        Flag::FailOnUnset => "--fail-on-unset",
        Flag::FailOnEmpty => "--fail-on-empty",
        Flag::Fail => "--fail",
        Flag::NoReplaceUnset => "--no-replace-unset",
        Flag::NoReplaceEmpty => "--no-replace-empty",
        Flag::NoReplace => "--no-replace",
        Flag::NoEscape => "--no-escape",
        Flag::UnbufferedLines => "--unbuffer-lines",
        Flag::Color => "--color",
    }
}

/// A collection of command-line flags: for each [`Flag`], the [`FlagItem`] recorded for it, if any.
///
/// Conflicting or duplicate flags are refused when they are set.
#[derive(Debug)]
pub struct Flags {
    flags: [Option<FlagItem>; 9],
}

impl View for Flags {
    type V = Map<Flag, (Seq<char>, Option<bool>)>;

    closed spec fn view(&self) -> Map<Flag, (Seq<char>, Option<bool>)> {
        Map::new(
            |f: Flag| self.flags@[flag_index(f)] is Some,
            |f: Flag| self.flags@[flag_index(f)]->0@,
        )
    }
}

impl Flags {
    /// Sets the value of a flag, ensuring no conflicts or duplicates with other flags.
    ///
    /// * `flag_type`: The type of flag to set (e.g. `Flag::FailOnUnset`).
    /// * `flag`: The argument name (e.g. "--fail-on-unset").
    /// * `value`: The boolean value to set for the flag.
    ///
    /// Errors: `ConflictingFlags(flag, other)` when a flag listed as conflicting with
    /// `flag_type` is on (`other` is the name that flag was given with; the first such flag
    /// in the order of [`conflicts`] is reported), else `DuplicateFlag(flag)` when
    /// `flag_type` itself is already on. On error nothing changes.
    pub fn set(&mut self, flag_type: Flag, flag: &str, value: bool) -> (r: Result<(), ParseArgsError>)
        ensures
            match set_outcome(old(self)@, flag_type, flag@, value) {
                Ok(m) => r is Ok && final(self)@ == m,
                Err(e) => r matches Err(err) && err@ == e && final(self)@ == old(self)@,
            },
    {
        let conflicting = conflicting_options(flag_type);
        let mut i: usize = 0;
        assert(conflicting@.skip(0) =~= conflicting@);
        while i < conflicting.len()
            invariant
                0 <= i <= conflicting@.len(),
                conflicting@ == conflicts(flag_type),
                self.flags@.len() == FLAG_COUNT,
                first_on(self@, conflicts(flag_type)) == first_on(self@, conflicting@.skip(i as int)),
            decreases conflicting@.len() - i,
        {
            let c = conflicting[i];
            let idx = index_of(c);
            proof {
                lemma_flag_index(c);
                assert(conflicting@.skip(i as int)[0] == c);
                assert(conflicting@.skip(i as int).drop_first() =~= conflicting@.skip(i + 1));
            }
            match &self.flags[idx] {
                Some(item) => {
                    if item.value == Some(true) {
                        return Err(ParseArgsError::ConflictingFlags(String::from_str(flag), item.flag.clone()));
                    }
                },
                None => {},
            }
            i = i + 1;
        }
        assert(conflicting@.skip(i as int) =~= Seq::<Flag>::empty());
        let idx = index_of(flag_type);
        proof {
            lemma_flag_index(flag_type);
        }
        match &self.flags[idx] {
            Some(existing) => {
                if existing.value == Some(true) {
                    return Err(ParseArgsError::DuplicateFlag(String::from_str(flag)));
                }
            },
            None => {},
        }
        let ghost before = self@;
        self.flags[idx] = Some(FlagItem { flag: String::from_str(flag), value: Some(value) });
        proof {
            assert forall|g: Flag| #![auto] flag_index(g) == flag_index(flag_type) implies g == flag_type by {
                lemma_flag_index(g);
                lemma_flag_index(flag_type);
            }
            assert(self@ =~= before.insert(flag_type, (flag@, Some(value))));
        }
        Ok(())
    }

    /// Retrieves the `FlagItem` associated with the given `Flag` variant, if it is set.
    #[must_use]
    pub fn get(&self, flag_variant: Flag) -> (r: Option<&FlagItem>)
        ensures
            match r {
                Some(item) => self@.contains_key(flag_variant) && self@[flag_variant] == item@,
                None => !self@.contains_key(flag_variant),
            },
    {
        proof {
            lemma_flag_index(flag_variant);
        }
        self.flags[index_of(flag_variant)].as_ref()
    }

    /// Updates the value of an existing flag; a flag that is not recorded is left alone.
    pub fn update(&mut self, flag: Flag, new_value: bool)
        ensures
            old(self)@.contains_key(flag) ==> final(self)@ == old(self)@.insert(
                flag,
                (old(self)@[flag].0, Some(new_value)),
            ),
            !old(self)@.contains_key(flag) ==> final(self)@ == old(self)@,
    {
        proof {
            lemma_flag_index(flag);
        }
        let idx = index_of(flag);
        let ghost before = self@;
        match &self.flags[idx] {
            Some(item) => {
                let name = item.flag.clone();
                self.flags[idx] = Some(FlagItem { flag: name, value: Some(new_value) });
                proof {
                    assert forall|g: Flag| #![auto] flag_index(g) == flag_index(flag) implies g == flag by {
                        lemma_flag_index(g);
                    }
                    assert(self@ =~= before.insert(flag, (before[flag].0, Some(new_value))));
                }
            },
            None => {},
        }
    }

    /// Sets `flag_type` to `value` under its long name ([`long_name`]); see [`Flags::set`].
    pub fn set_flag(&mut self, flag_type: Flag, value: bool) -> (r: Result<(), ParseArgsError>)
        ensures
            match set_outcome(old(self)@, flag_type, long_name(flag_type), value) {
                Ok(m) => r is Ok && final(self)@ == m,
                Err(e) => r matches Err(err) && err@ == e && final(self)@ == old(self)@,
            },
    {
        self.set(flag_type, flag_name(flag_type), value)
    }

    /// The value recorded for `flag`, if the flag is recorded.
    pub fn get_flag(&self, flag: Flag) -> (r: Option<bool>)
        ensures
            r == (if self@.contains_key(flag) {
                self@[flag].1
            } else {
                None
            }),
    {
        match self.get(flag) {
            Some(item) => item.value,
            None => None,
        }
    }

    /// Returns `true` if the specified flag is recorded with the value `true`.
    #[must_use]
    pub fn is_flag_set(&self, flag: Flag) -> (r: bool)
        ensures
            r == flag_on(self@, flag),
    {
        proof {
            lemma_flag_index(flag);
        }
        match &self.flags[index_of(flag)] {
            Some(item) => item.value == Some(true),
            None => false,
        }
    }
}

impl Default for Flags {
    /// A collection in which no flag is recorded.
    fn default() -> (r: Flags)
        ensures
            r@ == Map::<Flag, (Seq<char>, Option<bool>)>::empty(),
    {
        let flags: [Option<FlagItem>; 9] = [None, None, None, None, None, None, None, None, None];
        let r = Flags { flags };
        proof {
            assert forall|f: Flag| !r@.contains_key(f) by {
                lemma_flag_index(f);
            }
            assert(r@ =~= Map::<Flag, (Seq<char>, Option<bool>)>::empty());
        }
        r
    }
}

/// Setting a flag records it under the name it was given with and the value, and leaves
/// every other flag as it was.
pub proof fn law_set_records_flag(m: Map<Flag, (Seq<char>, Option<bool>)>, f: Flag, name: Seq<char>, value: bool)
    requires
        set_outcome(m, f, name, value) is Ok,
    ensures
        set_outcome(m, f, name, value)->Ok_0.contains_key(f),
        set_outcome(m, f, name, value)->Ok_0[f] == (name, Some(value)),
        forall|g: Flag| g != f ==> (set_outcome(m, f, name, value)->Ok_0.contains_key(g) == m.contains_key(g)
            && set_outcome(m, f, name, value)->Ok_0[g] == m[g]),
{
}

/// A flag that is already on cannot be set a second time.
pub proof fn law_duplicate_flag_refused(m: Map<Flag, (Seq<char>, Option<bool>)>, f: Flag, name: Seq<char>, value: bool)
    requires
        flag_on(m, f),
    ensures
        set_outcome(m, f, name, value) is Err,
{
}

/// A flag cannot be set while a flag that conflicts with it is on, whichever of the two
/// comes first; the error names the flag being set first.
pub proof fn law_conflicting_flag_refused(
    m: Map<Flag, (Seq<char>, Option<bool>)>,
    f: Flag,
    c: Flag,
    name: Seq<char>,
    value: bool,
)
    requires
        conflicts(f).contains(c),
        flag_on(m, c),
    ensures
        set_outcome(m, f, name, value) matches Err(ArgsErrorView::ConflictingFlags(a, _)) && a == name,
{
    lemma_first_on_none(m, conflicts(f));
    let i = choose|i: int| 0 <= i < conflicts(f).len() && conflicts(f)[i] == c;
    assert(flag_on(m, conflicts(f)[i]));
}

/// Two flags conflict with each other or not at all: the table of conflicts is symmetric.
pub proof fn law_conflicts_symmetric(a: Flag, b: Flag)
    ensures
        conflicts(a).contains(b) <==> conflicts(b).contains(a),
{
    assert(conflicts(a).contains(b) ==> conflicts(b).contains(a)) by {
        if conflicts(a).contains(b) {
            let i = choose|i: int| 0 <= i < conflicts(a).len() && conflicts(a)[i] == b;
            match a {
                Flag::FailOnUnset => {
                    if i == 0 { assert(conflicts(b)[0] == a); } else if i == 1 { assert(conflicts(b)[0] == a); } else { assert(conflicts(b)[3] == a); }
                },
                Flag::FailOnEmpty => {
                    if i == 0 { assert(conflicts(b)[1] == a); } else if i == 1 { assert(conflicts(b)[0] == a); } else { assert(conflicts(b)[4] == a); }
                },
                Flag::Fail => {
                    if i == 0 { assert(conflicts(b)[0] == a); } else if i == 1 { assert(conflicts(b)[0] == a); } else if i == 2 {
                        assert(conflicts(b)[2] == a);
                    } else { assert(conflicts(b)[2] == a); }
                },
                Flag::NoReplaceUnset => {
                    if i == 0 { assert(conflicts(b)[1] == a); } else if i == 1 { assert(conflicts(b)[0] == a); } else { assert(conflicts(b)[3] == a); }
                },
                Flag::NoReplaceEmpty => {
                    if i == 0 { assert(conflicts(b)[1] == a); } else if i == 1 { assert(conflicts(b)[1] == a); } else { assert(conflicts(b)[4] == a); }
                },
                Flag::NoReplace => {
                    if i == 0 { assert(conflicts(b)[1] == a); } else if i == 1 { assert(conflicts(b)[1] == a); } else if i == 2 {
                        assert(conflicts(b)[2] == a);
                    } else { assert(conflicts(b)[2] == a); }
                },
                _ => {},
            }
        }
    }
    assert(conflicts(b).contains(a) ==> conflicts(a).contains(b)) by {
        if conflicts(b).contains(a) {
            let i = choose|i: int| 0 <= i < conflicts(b).len() && conflicts(b)[i] == a;
            match b {
                Flag::FailOnUnset => {
                    if i == 0 { assert(conflicts(a)[0] == b); } else if i == 1 { assert(conflicts(a)[0] == b); } else { assert(conflicts(a)[3] == b); }
                },
                Flag::FailOnEmpty => {
                    if i == 0 { assert(conflicts(a)[1] == b); } else if i == 1 { assert(conflicts(a)[0] == b); } else { assert(conflicts(a)[4] == b); }
                },
                Flag::Fail => {
                    if i == 0 { assert(conflicts(a)[0] == b); } else if i == 1 { assert(conflicts(a)[0] == b); } else if i == 2 {
                        assert(conflicts(a)[2] == b);
                    } else { assert(conflicts(a)[2] == b); }
                },
                Flag::NoReplaceUnset => {
                    if i == 0 { assert(conflicts(a)[1] == b); } else if i == 1 { assert(conflicts(a)[0] == b); } else { assert(conflicts(a)[3] == b); }
                },
                Flag::NoReplaceEmpty => {
                    if i == 0 { assert(conflicts(a)[1] == b); } else if i == 1 { assert(conflicts(a)[1] == b); } else { assert(conflicts(a)[4] == b); }
                },
                Flag::NoReplace => {
                    if i == 0 { assert(conflicts(a)[1] == b); } else if i == 1 { assert(conflicts(a)[1] == b); } else if i == 2 {
                        assert(conflicts(a)[2] == b);
                    } else { assert(conflicts(a)[2] == b); }
                },
                _ => {},
            }
        }
    }
}

/// No two conflicting flags are on together in `m`.
pub open spec fn no_conflicting_pair(m: Map<Flag, (Seq<char>, Option<bool>)>) -> bool {
    forall|a: Flag, b: Flag| #[trigger] conflicts(a).contains(b) && flag_on(m, a) ==> !flag_on(m, b)
}

/// Setting flags never leaves two conflicting flags on together: from flags without such a
/// pair, a successful set gives flags without such a pair, whatever order the flags come
/// in.
pub proof fn law_set_keeps_flags_without_conflict(m: Map<Flag, (Seq<char>, Option<bool>)>, f: Flag, name: Seq<char>, value: bool)
    requires
        no_conflicting_pair(m),
        set_outcome(m, f, name, value) is Ok,
    ensures
        no_conflicting_pair(set_outcome(m, f, name, value)->Ok_0),
{
    let m2 = set_outcome(m, f, name, value)->Ok_0;
    lemma_first_on_none(m, conflicts(f));
    assert forall|a: Flag, b: Flag| #[trigger] conflicts(a).contains(b) && flag_on(m2, a) implies !flag_on(m2, b) by {
        law_conflicts_symmetric(a, b);
        law_conflicts_symmetric(f, f);
        if a == f {
            let i = choose|i: int| 0 <= i < conflicts(f).len() && conflicts(f)[i] == b;
            assert(!flag_on(m, conflicts(f)[i]));
        } else if b == f {
            assert(conflicts(f).contains(a));
            let i = choose|i: int| 0 <= i < conflicts(f).len() && conflicts(f)[i] == a;
            assert(!flag_on(m, conflicts(f)[i]));
        }
    }
}

} // verus!
