//! The input and output paths given on the command line; `get` hands out a copy of the path.

use crate::errors::ParseArgsError;
use crate::utils::{given_value, opt_view, take_value, value_outcome};
use vstd::prelude::*;
use vstd::std_specs::iter::IteratorSpec;

verus! {

/// The input and output file paths. `None` means that no path was given (standard input or
/// standard output is used).
#[derive(Debug, Default)]
pub struct InputOutput {
    input: Option<String>,
    output: Option<String>,
}

/// Input or output.
#[derive(Debug, PartialEq, Eq, Structural, Hash, Copy, Clone)]
pub enum IO {
    /// Input type
    Input,
    /// Output type
    Output,
}

/// The view of an optional string.
pub open spec fn opt_string_view(s: Option<String>) -> Option<Seq<char>> {
    match s {
        Some(s) => Some(s@),
        None => None,
    }
}

impl View for InputOutput {
    /// The input path and the output path.
    type V = (Option<Seq<char>>, Option<Seq<char>>);

    closed spec fn view(&self) -> (Option<Seq<char>>, Option<Seq<char>>) {
        (opt_string_view(self.input), opt_string_view(self.output))
    }
}

/// The paths after the path of `io` is set to `v`.
pub open spec fn with_path(
    paths: (Option<Seq<char>>, Option<Seq<char>>),
    io: IO,
    v: Seq<char>,
) -> (Option<Seq<char>>, Option<Seq<char>>) {
    match io {
        IO::Input => (Some(v), paths.1),
        IO::Output => (paths.0, Some(v)),
    }
}

/// The path of `io`.
pub open spec fn path_of(paths: (Option<Seq<char>>, Option<Seq<char>>), io: IO) -> Option<Seq<char>> {
    match io {
        IO::Input => paths.0,
        IO::Output => paths.1,
    }
}

impl InputOutput {
    /// No path given.
    pub fn new() -> (r: InputOutput)
        ensures
            r@ == (None::<Seq<char>>, None::<Seq<char>>),
    {
        InputOutput { input: None, output: None }
    }

    /// Sets the input or output path, given on the command line with the flag `arg`.
    ///
    /// The path is `value` when it was given with `=`; otherwise the next argument of `iter`
    /// is taken. Errors with `MissingValue(arg)` when there is no such argument, or when it is
    /// one of the program's parameters; the paths are then unchanged.
    pub fn set(
        &mut self,
        io: IO,
        arg: &str,
        value: Option<&str>,
        iter: &mut std::slice::Iter<'_, String>,
    ) -> (r: Result<(), ParseArgsError>)
        ensures
            (*final(iter)).decrease() is Some == (*old(iter)).decrease() is Some,
            value is None && (*old(iter)).remaining().len() > 0 ==> {
                &&& (*final(iter)).remaining() == (*old(iter)).remaining().drop_first()
                &&& (*old(iter)).decrease() is Some ==> decreases_to!((*old(iter)).decrease()->0 => (*final(iter)).decrease()->0)
            },
            value is None && (*old(iter)).remaining().len() == 0 ==> (*final(iter)).remaining() == (*old(iter)).remaining(),
            value is Some ==> *final(iter) == *old(iter),
            match value_outcome(arg@, given_value(opt_view(value), (*old(iter)).remaining())) {
                Ok(v) => r is Ok && final(self)@ == with_path(old(self)@, io, v),
                Err(e) => r matches Err(err) && err@ == e && final(self)@ == old(self)@,
            },
    {
        let flag_arg = take_value(arg, value, iter)?;
        match io {
            IO::Input => self.input = Some(flag_arg),
            IO::Output => self.output = Some(flag_arg),
        }
        Ok(())
    }

    /// The path of the input or output, if one was given.
    #[must_use]
    pub fn get(&self, io: IO) -> (r: Option<String>)
        ensures
            match r {
                Some(s) => path_of(self@, io) == Some(s@),
                None => path_of(self@, io) is None,
            },
    {
        match io {
            IO::Input => self.input.clone(),
            IO::Output => self.output.clone(),
        }
    }
}

} // verus!
