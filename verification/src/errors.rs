//! Errors reported while reading the command line.

use vstd::prelude::*;

verus! {

/// An error that occurs while parsing command-line arguments.
#[derive(Debug, PartialEq, Eq)]
#[non_exhaustive]
pub enum ParseArgsError {
    /// An unknown flag was specified.
    UnknownFlag(String),
    /// A value is missing for a given flag.
    MissingValue(String),
    /// Two or more conflicting flags were specified.
    ConflictingFlags(String, String),
    /// Flag were specified multiple times.
    DuplicateFlag(String),
    /// The requested shell completion is not one that is offered.
    InvalidCompletionType(String),
}

/// The mathematical value of a [`ParseArgsError`]: the variant and the text it carries.
pub enum ArgsErrorView {
    UnknownFlag(Seq<char>),
    MissingValue(Seq<char>),
    ConflictingFlags(Seq<char>, Seq<char>),
    DuplicateFlag(Seq<char>),
    InvalidCompletionType(Seq<char>),
}

impl View for ParseArgsError {
    type V = ArgsErrorView;

    open spec fn view(&self) -> ArgsErrorView {
        match self {
            ParseArgsError::UnknownFlag(f) => ArgsErrorView::UnknownFlag(f@),
            ParseArgsError::MissingValue(f) => ArgsErrorView::MissingValue(f@),
            ParseArgsError::ConflictingFlags(a, b) => ArgsErrorView::ConflictingFlags(a@, b@),
            ParseArgsError::DuplicateFlag(f) => ArgsErrorView::DuplicateFlag(f@),
            ParseArgsError::InvalidCompletionType(t) => ArgsErrorView::InvalidCompletionType(t@),
        }
    }
}

/// The message shown to the user for an error.
pub open spec fn error_message(e: ArgsErrorView) -> Seq<char> {
    match e {
        ArgsErrorView::UnknownFlag(f) => "Unknown flag: "@ + f,
        ArgsErrorView::MissingValue(f) => "Flag '"@ + f + "' requires a value!"@,
        ArgsErrorView::ConflictingFlags(a, b) => "Flags "@ + a + " and "@ + b
            + " cannot be used together!"@,
        ArgsErrorView::DuplicateFlag(f) => "Flag '"@ + f + "' cannot be specified more than once!"@,
        ArgsErrorView::InvalidCompletionType(t) => "Invalid completion type: "@ + t,
    }
}

impl ParseArgsError {
    /// The message of the error, as the command line tool prints it.
    pub fn to_string(&self) -> (s: String)
        ensures
            s@ == error_message(self@),
    {
        match self {
            ParseArgsError::UnknownFlag(flag) => {
                let mut s = String::from_str("Unknown flag: ");
                s.append(flag.as_str());
                s
            },
            ParseArgsError::MissingValue(flag) => {
                let mut s = String::from_str("Flag '");
                s.append(flag.as_str());
                s.append("' requires a value!");
                s
            },
            ParseArgsError::ConflictingFlags(flag1, flag2) => {
                let mut s = String::from_str("Flags ");
                s.append(flag1.as_str());
                s.append(" and ");
                s.append(flag2.as_str());
                s.append(" cannot be used together!");
                s
            },
            ParseArgsError::DuplicateFlag(flag) => {
                let mut s = String::from_str("Flag '");
                s.append(flag.as_str());
                s.append("' cannot be specified more than once!");
                s
            },
            ParseArgsError::InvalidCompletionType(t) => {
                let mut s = String::from_str("Invalid completion type: ");
                s.append(t.as_str());
                s
            },
        }
    }
}

} // verus!
