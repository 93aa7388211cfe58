//! Filters that select which variables are substituted.

use crate::errors::ParseArgsError;
use crate::string_set::StringSet;
use crate::text::{prefix_of, suffix_of};
use crate::utils::{given_value, opt_view, take_value, value_outcome};
use vstd::prelude::*;
use vstd::std_specs::iter::IteratorSpec;

verus! {

/// Optional sets of prefixes, suffixes and variable names. A variable is substituted when no
/// set is given, or when its name has one of the prefixes, one of the suffixes, or is one of
/// the names.
#[derive(Debug)]
pub struct Filters {
    /// A set of string prefixes.
    pub prefixes: Option<StringSet>,
    /// A set of string suffixes.
    pub suffixes: Option<StringSet>,
    /// A set of string variables.
    pub variables: Option<StringSet>,
}

/// The kinds of filter.
#[derive(Debug, PartialEq, Eq, Structural, Hash, Copy, Clone)]
pub enum Filter {
    Prefix,
    Suffix,
    Variable,
}

/// The mathematical value of [`Filters`]: the three optional sets.
pub struct FiltersView {
    pub prefixes: Option<Set<Seq<char>>>,
    pub suffixes: Option<Set<Seq<char>>>,
    pub variables: Option<Set<Seq<char>>>,
}

/// The view of an optional set of strings.
pub open spec fn set_view(s: Option<StringSet>) -> Option<Set<Seq<char>>> {
    match s {
        Some(s) => Some(s@),
        None => None,
    }
}

impl View for Filters {
    type V = FiltersView;

    open spec fn view(&self) -> FiltersView {
        FiltersView {
            prefixes: set_view(self.prefixes),
            suffixes: set_view(self.suffixes),
            variables: set_view(self.variables),
        }
    }
}

/// `s` with `v` added; an absent set becomes the set holding `v`.
pub open spec fn add_to(s: Option<Set<Seq<char>>>, v: Seq<char>) -> Option<Set<Seq<char>>> {
    match s {
        Some(s) => Some(s.insert(v)),
        None => Some(Set::empty().insert(v)),
    }
}

/// The filters after `v` is added as a filter of the kind `kind`.
pub open spec fn with_filter(f: FiltersView, kind: Filter, v: Seq<char>) -> FiltersView {
    match kind {
        Filter::Prefix => FiltersView { prefixes: add_to(f.prefixes, v), ..f },
        Filter::Suffix => FiltersView { suffixes: add_to(f.suffixes, v), ..f },
        Filter::Variable => FiltersView { variables: add_to(f.variables, v), ..f },
    }
}

/// Whether `name` passes the filters: `None` when no filter is set, otherwise whether the name
/// has one of the prefixes, one of the suffixes, or is one of the variables.
pub open spec fn filter_match(f: FiltersView, name: Seq<char>) -> Option<bool> {
    if f.prefixes is None && f.suffixes is None && f.variables is None {
        None
    } else {
        Some(
            (f.prefixes matches Some(p) && exists|x: Seq<char>| p.contains(x) && #[trigger] prefix_of(x, name))
            || (f.suffixes matches Some(s) && exists|x: Seq<char>| s.contains(x) && #[trigger] suffix_of(x, name))
            || (f.variables matches Some(v) && v.contains(name)),
        )
    }
}

fn add_to_set(set: &mut Option<StringSet>, v: String)
    ensures
        set_view(*final(set)) == add_to(set_view(*old(set)), v@),
{
    match set {
        Some(s) => {
            s.insert(v);
        },
        None => {
            let mut s = StringSet::new();
            s.insert(v);
            *set = Some(s);
        },
    }
}

impl Filters {
    /// Adds a new filter of the kind `filter`, given on the command line as `arg`.
    ///
    /// The filter is `value` when it was given with `=`; otherwise the next argument of `iter`
    /// is taken as the filter. Errors with `MissingValue(arg)` when there is no such argument,
    /// or when it is one of the program's parameters; the filters are then unchanged.
    pub fn add(
        &mut self,
        filter: Filter,
        arg: &str,
        value: Option<&str>,
        iter: &mut std::slice::Iter<'_, String>,
    ) -> (r: Result<(), ParseArgsError>)
        ensures
            (*final(iter)).decrease() is Some == (*old(iter)).decrease() is Some,
            value is None && (*old(iter)).remaining().len() > 0 ==> {
                &&& (*final(iter)).remaining() == (*old(iter)).remaining().drop_first()
                &&& (*old(iter)).decrease() is Some ==> decreases_to!((*old(iter)).decrease()->0 => (*final(iter)).decrease()->0)
            },
            value is None && (*old(iter)).remaining().len() == 0 ==> (*final(iter)).remaining() == (*old(iter)).remaining(),
            value is Some ==> *final(iter) == *old(iter),
            match value_outcome(arg@, given_value(opt_view(value), (*old(iter)).remaining())) {
                Ok(v) => r is Ok && final(self)@ == with_filter(old(self)@, filter, v),
                Err(e) => r matches Err(err) && err@ == e && final(self)@ == old(self)@,
            },
    {
        let flag_arg = take_value(arg, value, iter)?;
        match filter {
            Filter::Prefix => add_to_set(&mut self.prefixes, flag_arg),
            Filter::Suffix => add_to_set(&mut self.suffixes, flag_arg),
            Filter::Variable => add_to_set(&mut self.variables, flag_arg),
        }
        Ok(())
    }

    /// Determines if `var_name` matches the filters: `None` if no filters are set, otherwise
    /// whether it matches any of them.
    pub fn matches(&self, var_name: &str) -> (r: Option<bool>)
        ensures
            r == filter_match(self@, var_name@),
    {
        if !(self.prefixes.is_some() || self.suffixes.is_some() || self.variables.is_some()) {
            return None;
        }
        let match_prefix: bool = match &self.prefixes {
            Some(p) => p.has_prefix_of(var_name),
            None => false,
        };
        let match_suffix: bool = match &self.suffixes {
            Some(s) => s.has_suffix_of(var_name),
            None => false,
        };
        let match_variable: bool = match &self.variables {
            Some(v) => v.contains(var_name),
            None => false,
        };
        Some(match_prefix || match_suffix || match_variable)
    }
}

impl Default for Filters {
    /// No filter set.
    fn default() -> (r: Filters)
        ensures
            r@ == (FiltersView { prefixes: None, suffixes: None, variables: None }),
    {
        Filters { prefixes: None, suffixes: None, variables: None }
    }
}

/// Adding a filter that is already there changes nothing: each prefix, suffix or variable
/// is kept once.
pub proof fn law_filter_added_once(f: FiltersView, kind: Filter, v: Seq<char>)
    ensures
        with_filter(with_filter(f, kind, v), kind, v) == with_filter(f, kind, v),
{
    match kind {
        Filter::Prefix => {
            assert(add_to(add_to(f.prefixes, v), v)->0 =~= add_to(f.prefixes, v)->0);
        },
        Filter::Suffix => {
            assert(add_to(add_to(f.suffixes, v), v)->0 =~= add_to(f.suffixes, v)->0);
        },
        Filter::Variable => {
            assert(add_to(add_to(f.variables, v), v)->0 =~= add_to(f.variables, v)->0);
        },
    }
}

/// A name passes a filter that was added for it: a name with the added prefix, a name with
/// the added suffix, the added variable.
pub proof fn law_added_filter_admits(f: FiltersView, kind: Filter, v: Seq<char>, name: Seq<char>)
    requires
        match kind {
            Filter::Prefix => prefix_of(v, name),
            Filter::Suffix => suffix_of(v, name),
            Filter::Variable => name == v,
        },
    ensures
        filter_match(with_filter(f, kind, v), name) == Some(true),
{
    let g = with_filter(f, kind, v);
    match kind {
        Filter::Prefix => {
            assert(g.prefixes->0.contains(v));
        },
        Filter::Suffix => {
            assert(g.suffixes->0.contains(v));
        },
        Filter::Variable => {},
    }
}

/// Without any filter every variable is replaced: the filters give no verdict.
pub proof fn law_no_filter_no_verdict(name: Seq<char>)
    ensures
        filter_match(FiltersView { prefixes: None, suffixes: None, variables: None }, name) is None,
{
}

} // verus!
